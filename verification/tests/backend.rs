use teac::backend::aarch64::aapcs::{classify_args, ArgumentLocation};
use teac::backend::aarch64::entry::{arguments_fit, fetch_arguments, global_data, global_fits};
use teac::backend::aarch64::frame::FrameLayout;
use teac::backend::aarch64::function_generator::AsmFunctionGenerator;
use teac::backend::aarch64::generator::{
    checked_function, generate_function, AArch64AsmGenerator,
};
use teac::backend::aarch64::inst::Instruction;
use teac::backend::aarch64::limits::can_print;
use teac::backend::aarch64::phi_lowering::{find_ready_copy, plan, same_operand, ParallelCopy};
use teac::backend::aarch64::printer::AsmPrinter;
use teac::backend::aarch64::register_allocator::{can_allocate, RegisterAllocator};
use teac::backend::aarch64::types::{
    Addr, Cond, InstBinOp, InstOperand, Register, RegisterClass, RegisterSize,
};
use teac::backend::aarch64::{GeneratedFunction, GeneratedGlobal, GlobalData};
use teac::backend::common::layout::{align_up, StructLayouts};
use teac::backend::common::stack::StackFrame;
use teac::backend::error::Error;
use teac::common::generator::Generator;
use teac::common::names::NameMap;
use teac::common::target::Target;
use teac::ir::function::{BasicBlock, BlockLabel, Function, FunctionBody};
use teac::ir::module::{Module, Registry};
use teac::ir::stmt::{ArithBinOp, CmpPredicate, Stmt};
use teac::ir::types::{Dtype, StructMember, StructType};
use teac::ir::value::{GlobalDef, Local, LocalId, Operand};

fn local(id: usize) -> Operand {
    Operand::Local(Local::new(Dtype::I32, LocalId(id)))
}

fn pointer(id: usize) -> Operand {
    Operand::Local(Local::new(Dtype::ptr_to(Dtype::I32), LocalId(id)))
}

fn bit(id: usize) -> Operand {
    Operand::Local(Local::new(Dtype::I1, LocalId(id)))
}

fn block(label: BlockLabel, stmts: Vec<Stmt>) -> BasicBlock {
    BasicBlock { label, stmts }
}

fn entry(stmts: Vec<Stmt>) -> BasicBlock {
    block(BlockLabel::Function("f".to_string()), stmts)
}

fn no_layouts() -> StructLayouts {
    match StructLayouts::from_struct_types(&NameMap::new()) {
        Ok(l) => l,
        Err(e) => panic!("{e:?}"),
    }
}

fn printed(target: Target, insts: Vec<Instruction>, frame_size: i64) -> String {
    let mut p = AsmPrinter::new(target);
    let f = GeneratedFunction {
        symbol: target.mangle_symbol("f"),
        frame_size,
        insts,
        uses_fp: false,
    };
    assert!(can_print(&f));
    p.emit_function(&f);
    p.out
}

fn body(insts: Vec<Instruction>) -> String {
    let text = printed(Target::Linux, insts, 0);
    let start = text.find("mov x29, sp\n").expect("a prologue") + "mov x29, sp\n".len();
    text[start..].to_string()
}

fn assembled(blocks: &[BasicBlock], next_vreg: usize) -> String {
    let layouts = no_layouts();
    let mut frame = match FrameLayout::from_blocks(blocks, &layouts) {
        Ok(f) => f,
        Err(e) => panic!("{e:?}"),
    };
    let g = AsmFunctionGenerator::new("f", &frame, &layouts, Target::Linux, next_vreg);
    assert!(g.can_generate(blocks));
    let insts = match g.generate(blocks) {
        Ok(v) => v,
        Err(e) => panic!("{e:?}"),
    };
    assert!(can_allocate(&insts, &frame));
    let insts = match RegisterAllocator::new(&insts, &mut frame).run() {
        Ok(v) => v,
        Err(e) => panic!("{e:?}"),
    };
    printed(Target::Linux, insts, frame.frame_size_aligned())
}

#[test]
fn alignment_rounds_up() {
    assert_eq!(align_up(0, 16), 0);
    assert_eq!(align_up(1, 16), 16);
    assert_eq!(align_up(16, 16), 16);
    assert_eq!(align_up(17, 8), 24);
    assert_eq!(align_up(5, 1), 5);
}

#[test]
fn structs_are_laid_out() {
    let mut structs = NameMap::new();
    structs.insert(
        "P".to_string(),
        StructType {
            elements: vec![
                ("a".to_string(), StructMember { index: 0, dtype: Dtype::I32 }),
                ("p".to_string(), StructMember { index: 1, dtype: Dtype::ptr_to(Dtype::I32) }),
                ("b".to_string(), StructMember { index: 2, dtype: Dtype::I32 }),
            ],
        },
    );
    structs.insert(
        "Q".to_string(),
        StructType {
            elements: vec![(
                "ps".to_string(),
                StructMember {
                    index: 0,
                    dtype: Dtype::array_of(Dtype::Struct { name: "P".to_string() }, 2),
                },
            )],
        },
    );
    let layouts = match StructLayouts::from_struct_types(&structs) {
        Ok(l) => l,
        Err(e) => panic!("{e:?}"),
    };
    let p = layouts.get("P").unwrap();
    assert_eq!(p.field_offsets, vec![0, 8, 16]);
    assert_eq!((p.size, p.align), (24, 8));
    assert_eq!(layouts.get("Q").unwrap().size, 48);
    assert!(layouts.get("R").is_none());
    assert_eq!(layouts.size_align_of(&Dtype::array_of(Dtype::I32, 3)).unwrap(), (12, 4));
    match layouts.size_align_of(&Dtype::Struct { name: "R".to_string() }) {
        Err(Error::MissingStructLayout { name }) => assert_eq!(name, "R"),
        r => panic!("{r:?}"),
    }
    assert!(matches!(
        layouts.size_align_of(&Dtype::Void),
        Err(Error::UnsupportedDtype { .. })
    ));
}

#[test]
fn stack_slots_follow_each_other() {
    let mut frame = StackFrame::new();
    let a = frame.alloc_slot(4, 4);
    let b = frame.alloc_slot(8, 8);
    let c = frame.alloc_alloca(7, 4, 12);
    assert_eq!(a.offset_from_fp, -4);
    assert_eq!(b.offset_from_fp, -16);
    assert_eq!(c.offset_from_fp, -28);
    assert!(frame.has_alloca(7));
    assert!(!frame.has_alloca(8));
    assert!(frame.alloca_slot(8).is_none());
    assert_eq!(frame.frame_size_aligned(), 32);
}

#[test]
fn arguments_fill_registers_first() {
    let ints: Vec<Dtype> = (0..10).map(|_| Dtype::I32).collect();
    let refs: Vec<&Dtype> = ints.iter().collect();
    let locs = classify_args(&refs).unwrap();
    assert_eq!(locs[0], ArgumentLocation::Gpr(0));
    assert_eq!(locs[7], ArgumentLocation::Gpr(7));
    assert_eq!(locs[8], ArgumentLocation::Stack { offset: 0 });
    assert_eq!(locs[9], ArgumentLocation::Stack { offset: 8 });
    assert!(matches!(classify_args(&[&Dtype::Void]), Err(Error::UnsupportedDtype { .. })));
}

#[test]
fn register_sizes_follow_types() {
    assert_eq!(RegisterSize::try_from(&Dtype::I32).unwrap(), RegisterSize::W32);
    assert_eq!(RegisterSize::try_from(&Dtype::ptr_to(Dtype::I32)).unwrap(), RegisterSize::X64);
    assert!(RegisterSize::try_from(&Dtype::Void).is_err());
    assert_eq!(RegisterSize::W32.class(), RegisterClass::Gpr);
    assert_eq!(RegisterSize::S32.class(), RegisterClass::Fpr);
}

#[test]
fn immediates_are_moved() {
    let mov = |imm: i64| Instruction::Mov {
        size: RegisterSize::X64,
        dst: Register::Physical(0),
        src: InstOperand::Immediate(imm),
    };
    assert_eq!(body(vec![mov(5)]), "\tmov x0, #5\n\n");
    assert_eq!(
        body(vec![mov(0x12345)]),
        "\tmov x0, #74565\n\n"
    );
}

#[test]
fn operations_with_large_immediates_use_scratch_registers() {
    let add = |imm: i64| Instruction::BinOp {
        op: InstBinOp::Add,
        size: RegisterSize::W32,
        dst: Register::Physical(1),
        lhs: Register::Physical(2),
        rhs: InstOperand::Immediate(imm),
    };
    assert_eq!(body(vec![add(4095)]), "\tadd w1, w2, #4095\n\n");
    assert_eq!(body(vec![add(-3)]), "\tsub w1, w2, #3\n\n");
    assert_eq!(
        body(vec![add(70000)]),
        "\tmovz w1, #4464\n\tmovk w1, #1, lsl #16\n\tadd w1, w2, w1\n\n"
    );
}

#[test]
fn branches_and_accesses_are_printed() {
    let text = body(vec![
        Instruction::Ldr {
            size: RegisterSize::W32,
            dst: Register::Physical(3),
            addr: Addr::BaseOff { base: Register::Physical(29), offset: -4 },
        },
        Instruction::Cmp {
            size: RegisterSize::W32,
            lhs: Register::Physical(3),
            rhs: InstOperand::Immediate(7),
        },
        Instruction::BCond { cond: Cond::Lt, label: ".L1".to_string() },
        Instruction::B { label: ".L2".to_string() },
        Instruction::Label(".L1".to_string()),
        Instruction::Bl { func: "g".to_string() },
    ]);
    assert_eq!(
        text,
        "\tldur w3, [x29, #-4]\n\tcmp w3, #7\n\tb.lt .L1\n\tb .L2\n.L1:\n\tbl g\n\n"
    );
}

#[test]
fn globals_are_printed_before_functions() {
    let mut p = AsmPrinter::new(Target::Linux);
    let globals = vec![
        GeneratedGlobal { symbol: "g".to_string(), data: GlobalData::Word { value: 3 } },
        GeneratedGlobal {
            symbol: "a".to_string(),
            data: GlobalData::Array { words: vec![1, 2], zero_bytes: 8 },
        },
    ];
    p.emit_program(&globals, &Vec::new());
    assert_eq!(
        p.out,
        ".data\n.globl g\n.p2align 2\ng:\n\t.word 3\n\
         .globl a\n.p2align 2\na:\n\t.word 1\n\t.word 2\n\t.zero 8\n\n.text\n"
    );
}

#[test]
fn sum_is_assembled() {
    let blocks = [entry(vec![
        Stmt::as_biop(ArithBinOp::Add, Operand::from(1), Operand::from(2), local(0)),
        Stmt::as_biop(ArithBinOp::Mul, Operand::from(3), local(0), local(1)),
        Stmt::as_biop(ArithBinOp::Sub, local(0), local(1), local(2)),
        Stmt::as_return(Some(local(2))),
    ])];
    assert_eq!(
        assembled(&blocks, 3),
        ".globl f\n.p2align 2\nf:\n\tstp x29, x30, [sp, #-16]!\n\tmov x29, sp\n\
         \tmov w8, #1\n\tadd w9, w8, #2\n\
         \tmov w8, #3\n\tmul w8, w8, w9\n\
         \tsub w8, w9, w8\n\
         \tmov w0, w8\n\tmov sp, x29\n\tldp x29, x30, [sp], #16\n\tret\n\n"
    );
}

#[test]
fn sizes_are_tested_against_the_machine() {
    let layouts = no_layouts();
    let huge = Dtype::array_of(Dtype::array_of(Dtype::I32, usize::MAX >> 2), 8);
    assert!(!layouts.size_fits_for(&huge));
    assert!(layouts.size_fits_for(&Dtype::array_of(Dtype::I32, 8)));
    let with = |dtype: Dtype| {
        let mut structs = NameMap::new();
        structs.insert(
            "S".to_string(),
            StructType { elements: vec![("a".to_string(), StructMember { index: 0, dtype })] },
        );
        StructLayouts::fit(&structs)
    };
    assert!(!with(Dtype::array_of(Dtype::array_of(Dtype::I32, usize::MAX >> 2), 8)));
    assert!(with(Dtype::I32));
    let slot = |dtype: Dtype| {
        let p = Local::new(Dtype::ptr_to(dtype), LocalId(0));
        [entry(vec![Stmt::as_alloca(Operand::Local(p)), Stmt::as_return(None)])]
    };
    assert!(!FrameLayout::fits(&slot(huge.clone()), &layouts));
    assert!(FrameLayout::fits(&slot(Dtype::I32), &layouts));
    let large = GlobalDef { dtype: huge, initializers: None };
    assert!(!global_fits(&layouts, &large));
    assert!(global_fits(&layouts, &GlobalDef { dtype: Dtype::I32, initializers: Some(vec![1]) }));
    assert!(arguments_fit(&vec![Local::new(Dtype::I32, LocalId(0))]));
}

#[test]
fn malformed_functions_are_recognized() {
    let layouts = no_layouts();
    let blocks = [entry(vec![Stmt::as_jump(BlockLabel::BasicBlock(9))])];
    let frame = FrameLayout::from_blocks(&blocks, &layouts).unwrap();
    let g = AsmFunctionGenerator::new("f", &frame, &layouts, Target::Linux, 1);
    assert!(!g.can_generate(&blocks));
    assert!(g.can_generate(&[entry(vec![Stmt::as_return(None)])]));
    let mov = |dst: Register| Instruction::Mov {
        size: RegisterSize::W32,
        dst,
        src: InstOperand::Immediate(1),
    };
    assert!(can_allocate(&[mov(Register::Virtual(3))], &frame));
    assert!(!can_allocate(&[mov(Register::Virtual(usize::MAX))], &frame));
    let printable = |dst: Register| {
        can_print(&GeneratedFunction {
            symbol: "f".to_string(),
            frame_size: 0,
            insts: vec![mov(dst)],
            uses_fp: false,
        })
    };
    assert!(printable(Register::Physical(0)));
    assert!(!printable(Register::Virtual(0)));
}

#[test]
fn slots_are_aligned_and_apart() {
    let layouts = no_layouts();
    let slot = |id: usize, dtype: Dtype| {
        Stmt::as_alloca(Operand::Local(Local::new(Dtype::ptr_to(dtype), LocalId(id))))
    };
    let blocks = [
        entry(vec![
            slot(3, Dtype::I1),
            slot(5, Dtype::ptr_to(Dtype::I32)),
            Stmt::as_load(local(6), pointer(3)),
        ]),
        block(BlockLabel::BasicBlock(1), vec![slot(4, Dtype::array_of(Dtype::I32, 3))]),
    ];
    let frame = FrameLayout::from_blocks(&blocks, &layouts).unwrap();
    assert_eq!(frame.alloca_slot(3).unwrap().offset_from_fp, -1);
    assert_eq!(frame.alloca_slot(5).unwrap().offset_from_fp, -16);
    assert_eq!(frame.alloca_slot(4).unwrap().offset_from_fp, -28);
    assert!(!frame.has_alloca(6));
    assert_eq!(frame.frame_size_aligned(), 32);
}

#[test]
fn slots_live_in_the_frame() {
    let blocks = [entry(vec![
        Stmt::as_alloca(pointer(0)),
        Stmt::as_store(Operand::from(5), pointer(0)),
        Stmt::as_load(local(1), pointer(0)),
        Stmt::as_return(Some(local(1))),
    ])];
    assert_eq!(
        assembled(&blocks, 2),
        ".globl f\n.p2align 2\nf:\n\tstp x29, x30, [sp, #-16]!\n\tmov x29, sp\n\
         \tsub sp, sp, #16\n\tmov w8, #5\n\tstur w8, [x29, #-4]\n\tldur w8, [x29, #-4]\n\
         \tmov w0, w8\n\tmov sp, x29\n\tldp x29, x30, [sp], #16\n\tret\n\n"
    );
}

#[test]
fn phis_become_copies() {
    let blocks = [
        entry(vec![Stmt::as_jump(BlockLabel::BasicBlock(1))]),
        block(
            BlockLabel::BasicBlock(1),
            vec![
                Stmt::as_phi(
                    local(3),
                    vec![
                        (BlockLabel::Function("f".to_string()), Operand::from(0)),
                        (BlockLabel::BasicBlock(2), local(4)),
                    ],
                ),
                Stmt::as_cmp(CmpPredicate::Slt, local(3), Operand::from(10), bit(5)),
                Stmt::as_cjump(bit(5), BlockLabel::BasicBlock(2), BlockLabel::BasicBlock(3)),
            ],
        ),
        block(
            BlockLabel::BasicBlock(2),
            vec![
                Stmt::as_biop(ArithBinOp::Add, local(3), Operand::from(1), local(4)),
                Stmt::as_jump(BlockLabel::BasicBlock(1)),
            ],
        ),
        block(BlockLabel::BasicBlock(3), vec![Stmt::as_return(Some(local(3)))]),
    ];
    let lowered = plan(&blocks);
    assert_eq!(lowered.pending_inserts[0].len(), 1);
    assert_eq!(lowered.pending_inserts[2].len(), 1);
    assert!(lowered.splits.is_empty());
    assert!(same_operand(&lowered.pending_inserts[2][0].src, &local(4)));
    assert_eq!(
        assembled(&blocks, 6),
        ".globl f\n.p2align 2\nf:\n\tstp x29, x30, [sp, #-16]!\n\tmov x29, sp\n\
         \tmov w8, #0\n\tb .Lf_bb1\n\
         .Lf_bb1:\n\tcmp w8, #10\n\tb.lt .Lf_bb2\n\tb .Lf_bb3\n\
         .Lf_bb2:\n\tadd w8, w8, #1\n\tmov w8, w8\n\tb .Lf_bb1\n\
         .Lf_bb3:\n\tmov w0, w8\n\tmov sp, x29\n\tldp x29, x30, [sp], #16\n\tret\n\n"
    );
}

#[test]
fn copies_run_when_nothing_reads_their_target() {
    let copies = vec![
        ParallelCopy { dst: local(1), src: local(2) },
        ParallelCopy { dst: local(3), src: local(1) },
    ];
    assert_eq!(find_ready_copy(&copies), Some(1));
    let swap = vec![
        ParallelCopy { dst: local(1), src: local(2) },
        ParallelCopy { dst: local(2), src: local(1) },
    ];
    assert_eq!(find_ready_copy(&swap), None);
}

#[test]
fn backend_errors_have_messages() {
    assert_eq!(Error::MissingCond { vreg: 4 }.to_text(), "missing condition mapping for virtual register %4");
    assert_eq!(Error::Internal("x".to_string()).to_text(), "internal error: x");
    assert_eq!(
        Error::InvalidStructFieldIndex { name: "S".to_string(), index: -1 }.to_text(),
        "invalid struct field index -1 for struct 'S'"
    );
}

#[test]
fn arguments_are_fetched() {
    let mut arguments: Vec<Local> =
        (0..9).map(|i| Local::new(Dtype::I32, LocalId(10 + i))).collect();
    arguments[1].dtype = Dtype::ptr_to(Dtype::I32);
    let insts = match fetch_arguments(&arguments) {
        Ok(v) => v,
        Err(e) => panic!("{e:?}"),
    };
    assert_eq!(insts.len(), 9);
    assert!(matches!(
        insts[0],
        Instruction::Mov {
            size: RegisterSize::W32,
            dst: Register::Virtual(10),
            src: InstOperand::Register(Register::Physical(0)),
        }
    ));
    assert!(matches!(
        insts[1],
        Instruction::Mov {
            size: RegisterSize::X64,
            dst: Register::Virtual(11),
            src: InstOperand::Register(Register::Physical(1)),
        }
    ));
    assert!(matches!(
        insts[8],
        Instruction::Ldr {
            size: RegisterSize::W32,
            dst: Register::Virtual(18),
            addr: Addr::BaseOff { base: Register::Physical(29), offset: 16 },
        }
    ));
    let nothing = vec![Local::new(Dtype::Void, LocalId(0))];
    assert!(matches!(fetch_arguments(&nothing), Err(Error::UnsupportedDtype { .. })));
    let array = vec![Local::new(
        Dtype::Array { element: Box::new(Dtype::I32), length: Some(2) },
        LocalId(0),
    )];
    assert!(matches!(fetch_arguments(&array), Err(Error::UnsupportedDtype { .. })));
}

#[test]
fn globals_start_with_their_initializers() {
    let layouts = no_layouts();
    let word = |initializers| match global_data(
        &layouts,
        &GlobalDef { dtype: Dtype::I32, initializers },
    ) {
        Ok(GlobalData::Word { value }) => value,
        _ => panic!("no word"),
    };
    assert_eq!(word(None), 0);
    assert_eq!(word(Some(vec![-7])), -7);
    let dtype = Dtype::Array { element: Box::new(Dtype::I32), length: Some(5) };
    match global_data(&layouts, &GlobalDef { dtype, initializers: Some(vec![1, 2]) }) {
        Ok(GlobalData::Array { words, zero_bytes }) => {
            assert_eq!(words, vec![1, 2]);
            assert_eq!(zero_bytes, 12);
        }
        _ => panic!("no array"),
    }
    let unknown = GlobalDef {
        dtype: Dtype::Struct { name: "s".to_string() },
        initializers: None,
    };
    assert!(matches!(global_data(&layouts, &unknown), Err(Error::MissingStructLayout { .. })));
}

fn successor() -> FunctionBody {
    FunctionBody {
        arguments: vec![Local::new(Dtype::I32, LocalId(0))],
        blocks: vec![entry(vec![
            Stmt::as_biop(ArithBinOp::Add, local(0), Operand::from(1), local(1)),
            Stmt::as_return(Some(local(1))),
        ])],
        next_vreg: 2,
    }
}

fn with_slot(dtype: Dtype) -> FunctionBody {
    let p = Local::new(Dtype::ptr_to(dtype), LocalId(0));
    FunctionBody {
        arguments: Vec::new(),
        blocks: vec![entry(vec![Stmt::as_alloca(Operand::Local(p)), Stmt::as_return(None)])],
        next_vreg: 1,
    }
}

fn module_of(functions: Vec<(&str, Option<FunctionBody>)>) -> Module {
    let mut module = Module::new();
    for (name, body) in functions {
        let identifier = name.to_string();
        module.function_list.insert(name.to_string(), Function { identifier, body });
    }
    module
}

#[test]
fn functions_get_their_link_name_and_frame() {
    let layouts = no_layouts();
    let mut registry = Registry::new();
    registry.link_names.insert("f".to_string(), "linked_f".to_string());
    let f = match generate_function("f", &successor(), &layouts, &registry, Target::Macos) {
        Ok(f) => f,
        Err(e) => panic!("{e:?}"),
    };
    assert_eq!(f.symbol, "_linked_f");
    assert_eq!(f.frame_size, 0);
    assert!(!f.uses_fp);
    assert!(matches!(
        f.insts[0],
        Instruction::Mov {
            size: RegisterSize::W32,
            dst: Register::Physical(8),
            src: InstOperand::Register(Register::Physical(0)),
        }
    ));
    let g = match generate_function(
        "g",
        &with_slot(Dtype::array_of(Dtype::I32, 5)),
        &layouts,
        &registry,
        Target::Linux,
    ) {
        Ok(g) => g,
        Err(e) => panic!("{e:?}"),
    };
    assert_eq!(g.symbol, "g");
    assert_eq!(g.frame_size, 32);
}

#[test]
fn functions_outside_the_machine_are_not_generated() {
    let layouts = no_layouts();
    let registry = Registry::new();
    let check = |body: &FunctionBody| {
        checked_function("f", body, &layouts, &registry, Target::Linux)
    };
    assert!(matches!(check(&successor()), Some(Ok(_))));
    let huge = Dtype::array_of(Dtype::array_of(Dtype::I32, usize::MAX >> 2), 8);
    assert!(check(&with_slot(huge)).is_none());
    let mut stray = successor();
    stray.blocks = vec![entry(vec![Stmt::as_jump(BlockLabel::BasicBlock(9))])];
    assert!(check(&stray).is_none());
    let mut nothing = successor();
    nothing.arguments = vec![Local::new(Dtype::Void, LocalId(0))];
    assert!(matches!(check(&nothing), Some(Err(Error::UnsupportedDtype { .. }))));
    let unknown = with_slot(Dtype::Struct { name: "s".to_string() });
    assert!(matches!(check(&unknown), Some(Err(Error::MissingStructLayout { .. }))));
}

#[test]
fn modules_are_assembled() {
    let mut module = module_of(vec![("imported", None), ("f", Some(successor()))]);
    module.global_list.insert(
        "g".to_string(),
        GlobalDef { dtype: Dtype::I32, initializers: Some(vec![3]) },
    );
    let registry = Registry::new();
    let mut generator = AArch64AsmGenerator::new(&module, &registry, Target::Linux);
    assert!(matches!(generator.generate_checked(), Some(Ok(()))));
    assert_eq!(generator.functions.len(), 1);
    assert!(generator.can_output());
    let mut out = "# head\n".to_string();
    assert!(generator.output(&mut out).is_ok());
    let listing = ".data\n.globl g\n.p2align 2\ng:\n\t.word 3\n\n.text\n\
         .globl f\n.p2align 2\nf:\n\tstp x29, x30, [sp, #-16]!\n\tmov x29, sp\n\
         \tmov w8, w0\n\tadd w8, w8, #1\n\
         \tmov w0, w8\n\tmov sp, x29\n\tldp x29, x30, [sp], #16\n\tret\n\n";
    assert_eq!(out, format!("# head\n{listing}"));
    let mut again = AArch64AsmGenerator::new(&module, &registry, Target::Linux);
    assert!(again.generate().is_ok());
    let mut text = String::new();
    assert!(again.output(&mut text).is_ok());
    assert_eq!(text, listing);
}

#[test]
fn the_first_error_of_a_module_is_reported() {
    let registry = Registry::new();
    let mut nothing = successor();
    nothing.arguments = vec![Local::new(Dtype::Void, LocalId(0))];
    let huge = Dtype::array_of(Dtype::array_of(Dtype::I32, usize::MAX >> 2), 8);
    let module = module_of(vec![
        ("f", Some(successor())),
        ("g", Some(nothing)),
        ("h", Some(with_slot(huge.clone()))),
    ]);
    let mut generator = AArch64AsmGenerator::new(&module, &registry, Target::Linux);
    assert!(matches!(
        generator.generate_checked(),
        Some(Err(Error::UnsupportedDtype { .. }))
    ));
    assert!(generator.functions.is_empty());
    let module = module_of(vec![("f", Some(successor())), ("h", Some(with_slot(huge)))]);
    let mut generator = AArch64AsmGenerator::new(&module, &registry, Target::Linux);
    assert!(generator.generate_checked().is_none());
    assert!(generator.functions.is_empty());
    let mut module = module_of(vec![("f", Some(successor()))]);
    module.global_list.insert(
        "g".to_string(),
        GlobalDef { dtype: Dtype::Struct { name: "s".to_string() }, initializers: None },
    );
    let mut generator = AArch64AsmGenerator::new(&module, &registry, Target::Linux);
    assert!(matches!(
        generator.generate_checked(),
        Some(Err(Error::MissingStructLayout { .. }))
    ));
}

#[test]
fn float_widths_are_refused_on_virtual_registers_only() {
    let layouts = no_layouts();
    let frame = FrameLayout::from_blocks(&[entry(vec![Stmt::as_return(None)])], &layouts).unwrap();
    let mov = |dst: Register| Instruction::Mov {
        size: RegisterSize::S32,
        dst,
        src: InstOperand::Immediate(1),
    };
    assert!(can_allocate(&[mov(Register::Physical(0))], &frame));
    assert!(!can_allocate(&[mov(Register::Virtual(0))], &frame));
}
