use ostep_sim::x86::{
    Process, Proclist, RegInitError, register_name, register_number, Arg, ArgError, Cpu, LoadError, Placed, Scanned, X86Option, COND_EQ, COND_GT,
    COND_GTE, COND_LT, COND_LTE, COND_NEQ, REG_AX, REG_BX, REG_CX, REG_SP, REG_BP, REG_ZERO, RC_HALT, RC_NEXT, RC_YIELD,
};

fn chars(s: &str) -> Vec<char> {
    s.chars().collect()
}

fn cpu() -> Cpu {
    let mut c = Cpu::new(1, vec![], vec!["ax".to_string(), "qq".to_string()], false, true, false);
    c.init();
    c
}

#[test]
fn x86_defaults() {
    let o = X86Option::new();
    assert_eq!(o.numthreads, 2);
    assert_eq!(o.intfreq, 50);
    assert_eq!(o.loadaddr, 1000);
    assert_eq!(o.memsize, 128);
    assert!(!o.verbose);
}

#[test]
fn init_fills_memory_and_filters_register_trace() {
    let c = cpu();
    assert_eq!(c.max_memory, 1024);
    assert_eq!(c.memory_cell(0), Some("0".to_string()));
    assert_eq!(c.memory_cell(1023), Some("0".to_string()));
    assert_eq!(c.memory_cell(1024), None);
    assert_eq!(c.regtrace, vec!["ax".to_string()]);
    assert!(c.memory_dump().is_empty());
}

#[test]
fn register_names_round_trip() {
    for r in 0..7u8 {
        let n = register_name(r);
        assert_eq!(register_number(&chars(&n)), Some(r));
    }
    assert_eq!(register_number(&chars("ex")), None);
}

#[test]
fn store_then_load_reads_the_same_number() {
    let mut c = cpu();
    c.move_i_to_r(-77, REG_AX);
    assert_eq!(c.move_r_to_m(REG_AX, 100, REG_ZERO, REG_ZERO), RC_NEXT);
    assert_eq!(c.memory_cell(100), Some("-77".to_string()));
    c.move_m_to_r(100, REG_ZERO, REG_ZERO, REG_BX);
    assert_eq!(c.get_reg(REG_BX), -77);
    assert_eq!(c.memory_dump(), vec![(100, "-77".to_string())]);
}

#[test]
fn arithmetic_on_registers() {
    let mut c = cpu();
    c.move_i_to_r(5, REG_AX);
    c.add_i_to_r(3, REG_AX);
    c.move_i_to_r(2, REG_BX);
    c.sub_r_to_r(REG_BX, REG_AX);
    assert_eq!(c.get_reg(REG_AX), 6);
    c.add_r_to_r(REG_AX, REG_BX);
    assert_eq!(c.get_reg(REG_BX), 8);
    c.sub_i_to_r(10, REG_BX);
    assert_eq!(c.get_reg(REG_BX), -2);
    c.move_r_to_r(REG_BX, REG_CX);
    assert_eq!(c.get_reg(REG_CX), -2);
}

#[test]
fn exchange_and_fetchadd() {
    let mut c = cpu();
    c.move_i_to_m(4, 200, REG_ZERO, REG_ZERO);
    c.move_i_to_r(1, REG_AX);
    c.atomic_exchange(REG_AX, 200, REG_ZERO, REG_ZERO);
    assert_eq!(c.get_reg(REG_AX), 4);
    assert_eq!(c.memory_cell(200), Some("1".to_string()));
    c.move_i_to_r(10, REG_BX);
    c.fetchadd(REG_BX, 200, REG_ZERO, REG_ZERO);
    assert_eq!(c.get_reg(REG_BX), 1);
    assert_eq!(c.memory_cell(200), Some("11".to_string()));
}

#[test]
fn memory_operand_adds_both_registers() {
    let mut c = cpu();
    c.move_i_to_r(10, REG_AX);
    c.move_i_to_r(20, REG_BX);
    c.move_i_to_m(9, 5, REG_AX, REG_BX);
    assert_eq!(c.memory_cell(35), Some("9".to_string()));
}

#[test]
fn tests_set_codes_and_never_clear_them() {
    let mut c = cpu();
    c.test_all(3, 5);
    assert!(c.get_cond(COND_GT) && c.get_cond(COND_GTE) && c.get_cond(COND_NEQ));
    assert!(!c.get_cond(COND_LT) && !c.get_cond(COND_EQ) && !c.get_cond(COND_LTE));
    c.test_all(5, 5);
    assert!(c.get_cond(COND_EQ) && c.get_cond(COND_LTE));
    // set before, still set
    assert!(c.get_cond(COND_GT) && c.get_cond(COND_NEQ));
}

#[test]
fn conditional_jumps() {
    let mut c = cpu();
    c.set_pc(7);
    c.jump_equal(50);
    assert_eq!(c.get_pc(), 7);
    c.test_i_r(0, REG_AX);
    c.jump_equal(50);
    assert_eq!(c.get_pc(), 50);
    c.jump(3);
    assert_eq!(c.get_pc(), 3);
    c.jump_lessthan(9);
    assert_eq!(c.get_pc(), 3);
}

#[test]
fn call_then_return_comes_back() {
    let mut c = cpu();
    c.set_reg(REG_SP, 800);
    c.set_pc(12);
    c.call(40);
    assert_eq!(c.get_pc(), 40);
    assert_eq!(c.get_reg(REG_SP), 796);
    assert_eq!(c.memory_cell(796), Some("12".to_string()));
    c.ret();
    assert_eq!(c.get_pc(), 12);
    assert_eq!(c.get_reg(REG_SP), 800);
}

#[test]
fn push_and_pop() {
    let mut c = cpu();
    c.set_reg(REG_SP, 800);
    c.move_i_to_r(42, REG_AX);
    c.push_r(REG_AX);
    assert_eq!(c.memory_cell(796), Some("42".to_string()));
    c.push_m(3, REG_AX, REG_ZERO);
    assert_eq!(c.memory_cell(792), Some("45".to_string()));
    c.pop();
    assert_eq!(c.get_reg(REG_SP), 796);
    c.pop_r(REG_CX);
    assert_eq!(c.get_reg(REG_CX), 796);
    assert_eq!(c.get_reg(REG_SP), 800);
}

#[test]
fn return_codes() {
    let c = cpu();
    assert_eq!(c.halt(), RC_HALT);
    assert_eq!(c.iyield(), RC_YIELD);
    assert_eq!(c.nop(), RC_NEXT);
}

fn arg(c: &Cpu, s: &str) -> Result<String, ArgError> {
    c.getarg(&chars(s)).map(|a| format!("{:?}", a))
}

#[test]
fn operand_forms() {
    let c = cpu();
    assert_eq!(arg(&c, "$5"), Ok(format!("{:?}", Arg::Immediate(5))));
    assert_eq!(arg(&c, " %bx, "), Ok(format!("{:?}", Arg::Register(REG_BX))));
    assert_eq!(arg(&c, "%nope"), Ok(format!("{:?}", Arg::Register(REG_ZERO))));
    assert_eq!(arg(&c, "(%cx)"), Ok(format!("{:?}", Arg::Memory(0, REG_CX, REG_ZERO))));
    assert_eq!(arg(&c, "-12"), Ok(format!("{:?}", Arg::Memory(-12, REG_ZERO, REG_ZERO))));
    assert_eq!(arg(&c, "300"), Ok(format!("{:?}", Arg::Memory(300, REG_ZERO, REG_ZERO))));
    assert_eq!(arg(&c, ".top"), Ok(format!("{:?}", Arg::Label(chars(".top")))));
    assert_eq!(arg(&c, "$10"), Ok(format!("{:?}", Arg::Immediate(10))));
    assert_eq!(arg(&c, "$-7"), Ok(format!("{:?}", Arg::Immediate(-7))));
    assert_eq!(arg(&c, "10(%ax)"), Ok(format!("{:?}", Arg::Memory(10, REG_AX, REG_ZERO))));
    assert_eq!(arg(&c, "10(%ax,%bx)"), Ok(format!("{:?}", Arg::Memory(10, REG_AX, REG_BX))));
    assert_eq!(arg(&c, "-4(%sp, %bp)"), Ok(format!("{:?}", Arg::Memory(-4, REG_SP, REG_BP))));
}

#[test]
fn operand_errors() {
    let c = cpu();
    assert_eq!(arg(&c, "$x"), Err(ArgError::ImmediateValue));
    assert_eq!(arg(&c, "$99999999999"), Err(ArgError::ImmediateValue));
    assert_eq!(arg(&c, "(ax)"), Err(ArgError::RegisterSyntax));
    assert_eq!(arg(&c, "count"), Err(ArgError::UndeclaredVariable));
    assert_eq!(arg(&c, "10(ax)"), Err(ArgError::RegisterSyntax));
    assert_eq!(arg(&c, "1x"), Err(ArgError::BadNumber));
}

fn program() -> Vec<String> {
    vec![
        ".var count".to_string(),
        ".top".to_string(),
        "mov $3, %ax   # three".to_string(),
        "mov %ax, %bx".to_string(),
        "".to_string(),
        "sub $1, %ax".to_string(),
        "halt".to_string(),
    ]
}

#[test]
fn load_gathers_names_and_places_instructions() {
    let mut c = cpu();
    assert_eq!(c.load(&program(), 500), Ok(()));
    assert_eq!(c.vars, vec![(chars("count"), 100)]);
    assert_eq!(c.labels, vec![(chars(".top"), 500)]);
    assert_eq!(c.program_cell(500), Some("mov $3, %ax   ".to_string()));
    assert_eq!(c.memory_cell(500), Some("self.move_i_to_r(3, 1)".to_string()));
    assert_eq!(c.program_cell(501), Some("mov %ax, %bx".to_string()));
    assert_eq!(c.memory_cell(501), Some("0".to_string()));
    assert_eq!(c.program_cell(502), Some("".to_string()));
    assert_eq!(c.program_cell(504), Some("halt".to_string()));
    assert_eq!(c.program_cell(505), None);
    assert_eq!(c.getarg(&chars("count")).map(|a| format!("{:?}", a)), Ok(format!("{:?}", Arg::Memory(100, 0, 0))));
}

#[test]
fn load_stops_at_a_memory_mov() {
    let mut c = cpu();
    let p = vec!["mov $1, %ax".to_string(), "mov 5, %ax".to_string(), "halt".to_string()];
    assert_eq!(c.load(&p, 500), Ok(()));
    assert_eq!(c.program_cell(501), Some("mov 5, %ax".to_string()));
    assert_eq!(c.program_cell(502), None);
}

#[test]
fn load_errors() {
    let mut c = cpu();
    assert_eq!(c.load(&vec!["a # b # c".to_string()], 500), Err(LoadError::CommentForm));
    let mut c = cpu();
    assert_eq!(c.load(&vec![".var a b".to_string()], 500), Err(LoadError::VarForm));
    let mut c = cpu();
    assert_eq!(c.load(&vec![".var a".to_string()], 104), Err(LoadError::StaticOverrun));
    let mut c = cpu();
    assert_eq!(c.load(&vec![".l x".to_string()], 500), Err(LoadError::LabelForm));
    let mut c = cpu();
    assert_eq!(c.load(&vec!["mov $1 %ax".to_string()], 500), Err(LoadError::MovOperands));
    let mut c = cpu();
    assert_eq!(c.load(&vec!["mov $1x, %ax".to_string()], 500), Err(LoadError::Operand(ArgError::ImmediateValue)));
    let mut c = cpu();
    assert_eq!(c.load(&vec!["mov count, %ax".to_string()], 500), Err(LoadError::Operand(ArgError::UndeclaredVariable)));
}

#[test]
fn line_by_line_passes() {
    let mut c = cpu();
    let mut pc = 500;
    let mut data = 100;
    match c.scan_line(&chars(".var x"), &mut pc, &mut data, 500) {
        Ok(Scanned::Var(n, a)) => {
            assert_eq!(n, chars("x"));
            assert_eq!(a, 100);
        },
        _ => panic!("expected a variable"),
    }
    assert_eq!(data, 104);
    let mut pc2 = 500;
    match c.place_line(&chars("mov $2, %cx"), &mut pc2) {
        Ok(Placed::Move(Arg::Immediate(2), Arg::Register(3))) => {},
        _ => panic!("expected a move"),
    }
    assert_eq!(pc2, 501);
    match c.place_line(&chars("mov $2, $3"), &mut pc2) {
        Ok(Placed::Refused(_, _)) => {},
        _ => panic!("expected a refusal"),
    }
    assert_eq!(pc2, 501);
}

#[test]
fn thread_register_settings() {
    let mut p = Process::new(0, 1000, 5000);
    assert_eq!(p.init("ax=5:bx=2"), Ok(()));
    assert_eq!(p.regs, vec![0, 0, 0, 0, 0, 5000, 0]);
    assert_eq!(p.init("qq=1"), Err(RegInitError::UnknownRegister));
    assert_eq!(p.init("ax"), Err(RegInitError::NotNameValue));
    assert_eq!(p.init("ax=x"), Err(RegInitError::BadValue));
    assert_eq!(p.init(""), Ok(()));
}

#[test]
fn saving_and_restoring_a_thread() {
    let mut c = cpu();
    c.move_i_to_r(9, REG_AX);
    c.set_pc(77);
    let mut p = Process::new(1, 0, 100);
    p.save(&c);
    c.move_i_to_r(1, REG_AX);
    c.set_pc(3);
    p.restore(&mut c);
    assert_eq!(c.get_reg(REG_AX), 9);
    assert_eq!(c.get_pc(), 77);
}

#[test]
fn next_thread_choice() {
    let mut l = Proclist::new();
    for t in 0..3 {
        l.add(Process::new(t, 0, 0));
    }
    assert_eq!(l.getnum(), 3);
    // the last live thread after the current one
    l.next();
    assert_eq!(l.curr, 2);
    l.done();
    assert_eq!(l.numdone(), 1);
    // none after it: the last live one up to it
    l.next();
    assert_eq!(l.curr, 1);
    l.done();
    l.next();
    assert_eq!(l.curr, 0);
}
