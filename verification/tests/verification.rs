use rhdl::ast::Expr;
use rhdl::ast::Kernel;
use rhdl::check::flow_check;
use rhdl::check::type_check;
use rhdl::check::VerificationError;
use rhdl::driver::compile_design;
use rhdl::driver::compile_kernel;
use rhdl::driver::infer;
use rhdl::driver::CompileError;
use rhdl::kind::Kind;
use rhdl::rhif::AluBinary;
use rhdl::rhif::ExternalFunction;
use rhdl::rhif::ExternalFunctionCode;
use rhdl::rhif::FnSig;
use rhdl::rhif::Instr;
use rhdl::rhif::Object;
use rhdl::rhif::Op;
use rhdl::rhif::SpannedSource;
use rhdl::rhif::SymbolMap;
use rhdl::sim::simulate;
use rhdl::sim::SimError;

fn object_with(instrs: Vec<Instr>, kinds: Vec<Kind>, ret: usize) -> Object {
    Object {
        instrs,
        kinds,
        symbols: SymbolMap {
            source: SpannedSource { source: "scratchpad".to_string() },
        },
        externals: vec![],
        arguments: vec![0],
        return_register: ret,
        name: "scratchpad".to_string(),
        fn_id: 99,
    }
}

#[test]
fn test_type_check_rejects_width_mismatch() {
    // a copy between registers of different widths fails the type check
    let obj = object_with(
        vec![Instr { lhs: 1, op: Op::Copy { arg: 0 }, node: 0 }],
        vec![Kind::make_bits(4), Kind::make_bits(8)],
        1,
    );
    let err = type_check(&obj).unwrap_err();
    assert!(matches!(err, VerificationError::TypeMismatch { .. }));
    assert!(flow_check(&obj).is_ok());
}

#[test]
fn test_flow_check_rejects_use_before_def() {
    let obj = object_with(
        vec![Instr { lhs: 1, op: Op::Copy { arg: 2 }, node: 0 }],
        vec![Kind::make_bits(4), Kind::make_bits(4), Kind::make_bits(4)],
        1,
    );
    assert!(matches!(
        flow_check(&obj).unwrap_err(),
        VerificationError::FlowViolation { .. }
    ));
}

#[test]
fn test_flow_check_rejects_double_assignment() {
    let obj = object_with(
        vec![
            Instr { lhs: 1, op: Op::Copy { arg: 0 }, node: 0 },
            Instr { lhs: 1, op: Op::Copy { arg: 0 }, node: 1 },
        ],
        vec![Kind::make_bits(4), Kind::make_bits(4)],
        1,
    );
    assert!(matches!(
        flow_check(&obj).unwrap_err(),
        VerificationError::FlowViolation { .. }
    ));
    assert!(type_check(&obj).is_ok());
}

#[test]
fn test_simulate_errors() {
    let obj = object_with(
        vec![Instr { lhs: 1, op: Op::Copy { arg: 0 }, node: 0 }],
        vec![Kind::make_bits(4), Kind::make_bits(4)],
        1,
    );
    // wrong number of inputs
    assert_eq!(simulate(&obj, &vec![]).unwrap_err(), SimError::ArityMismatch);
    // reading a register nothing assigned
    let bad = object_with(
        vec![Instr { lhs: 1, op: Op::Copy { arg: 2 }, node: 0 }],
        vec![Kind::make_bits(4), Kind::make_bits(4), Kind::make_bits(4)],
        1,
    );
    assert_eq!(
        simulate(&bad, &vec![3]).unwrap_err(),
        SimError::UnassignedRegister
    );
    // calls are not executed
    let calling = Object {
        externals: vec![ExternalFunction {
            code: ExternalFunctionCode::Extern(rhdl::rhif::ExternalKernelDef {
                name: "prim".to_string(),
                body: String::new(),
            }),
            signature: FnSig {
                arguments: vec![Kind::make_bits(4)],
                ret: Kind::make_bits(4),
            },
        }],
        ..object_with(
            vec![Instr { lhs: 1, op: Op::Exec { func: 0, args: vec![0] }, node: 0 }],
            vec![Kind::make_bits(4), Kind::make_bits(4)],
            1,
        )
    };
    assert_eq!(
        simulate(&calling, &vec![3]).unwrap_err(),
        SimError::UnsupportedCall
    );
}

#[test]
fn test_elaboration_error_carries_identity() {
    // the callee's body leaves a literal unresolved, so its compilation
    // fails; the design error names the callee and an inference phase
    let bad_callee = Kernel {
        fn_id: 7,
        name: "bad".to_string(),
        arguments: vec![],
        exprs: vec![Expr::Literal { value: 1, width: None }],
        ret: 0,
    };
    let top = Kernel {
        fn_id: 6,
        name: "top".to_string(),
        arguments: vec![Kind::make_bits(4)],
        exprs: vec![
            Expr::Arg { index: 0 },
            Expr::Call {
                func: ExternalFunction {
                    code: ExternalFunctionCode::Kernel(bad_callee),
                    signature: FnSig {
                        arguments: vec![Kind::make_bits(4)],
                        ret: Kind::make_bits(4),
                    },
                },
                args: vec![0],
            },
        ],
        ret: 1,
    };
    match compile_design(top).unwrap_err() {
        CompileError::Elaboration { fn_id, error } => {
            assert_eq!(fn_id, 7);
            assert!(matches!(*error, CompileError::Type(_)));
        }
        other => panic!("expected an elaboration error, got {:?}", other),
    }
}

#[test]
fn test_inference_chain_reaches_fixpoint() {
    // a chain of complements forces several propagation rounds
    let kernel = Kernel {
        fn_id: 8,
        name: "chain".to_string(),
        arguments: vec![Kind::make_bits(8)],
        exprs: vec![
            Expr::Arg { index: 0 },
            Expr::Not { arg: 0 },
            Expr::Not { arg: 1 },
            // the literal's width is only reachable through the operation
            Expr::Literal { value: 0b1010, width: None },
            Expr::Binary { op: AluBinary::Xor, arg1: 2, arg2: 3 },
        ],
        ret: 4,
    };
    let ctx = infer(&kernel).unwrap();
    for entry in &ctx.res {
        assert!(entry.is_some());
    }
    let obj = compile_kernel(&kernel).unwrap();
    let out = simulate(&obj, &vec![0xF0]).unwrap();
    assert_eq!(out, 0xF0 ^ 0b1010);
}
