use rhdl::ast::Expr;
use rhdl::path::Path;
use rhdl::rhif::Slot;
use rhdl::ast::Kernel;
use rhdl::driver::check_inference;
use rhdl::driver::compile;
use rhdl::driver::compile_design;
use rhdl::driver::compile_kernel;
use rhdl::driver::infer;
use rhdl::driver::run_pass_pipeline;
use rhdl::kind::Kind;
use rhdl::passes::pre_cast_literals;
use rhdl::passes::remove_extra_registers;
use rhdl::passes::remove_unneeded_muxes;
use rhdl::passes::remove_unused_literals;
use rhdl::passes::remove_useless_casts;
use rhdl::rhif::AluBinary;
use rhdl::rhif::ExternalFunction;
use rhdl::rhif::ExternalFunctionCode;
use rhdl::rhif::ExternalKernelDef;
use rhdl::rhif::FnSig;
use rhdl::sim::simulate;

/// A kernel computing `(a + b)` over two 4-bit arguments, with a
/// redundant select of equal branches and a literal cast to chew on.
fn adder_kernel(fn_id: u64) -> Kernel {
    Kernel {
        fn_id,
        name: "adder".to_string(),
        arguments: vec![Kind::make_bits(4), Kind::make_bits(4), Kind::make_bits(1)],
        exprs: vec![
            Expr::Arg { index: 0 },
            Expr::Arg { index: 1 },
            Expr::Arg { index: 2 },
            // a select whose branches are equal: the pipeline removes it
            Expr::Select { cond: 2, true_value: 0, false_value: 0 },
            Expr::Binary { op: AluBinary::Add, arg1: 3, arg2: 1 },
            // a literal the pipeline can fold and a redundant use of it
            Expr::Literal { value: 0, width: Some(4) },
            Expr::Binary { op: AluBinary::Or, arg1: 4, arg2: 5 },
        ],
        ret: 6,
    }
}

fn leaf_kernel(fn_id: u64) -> Kernel {
    Kernel {
        fn_id,
        name: "leaf".to_string(),
        arguments: vec![Kind::make_bits(4)],
        exprs: vec![
            Expr::Arg { index: 0 },
            Expr::Not { arg: 0 },
        ],
        ret: 1,
    }
}

fn sig4() -> FnSig {
    FnSig { arguments: vec![Kind::make_bits(4)], ret: Kind::make_bits(4) }
}

fn calling_kernel(fn_id: u64, callee: Kernel) -> Kernel {
    Kernel {
        fn_id,
        name: "caller".to_string(),
        arguments: vec![Kind::make_bits(4)],
        exprs: vec![
            Expr::Arg { index: 0 },
            Expr::Call {
                func: ExternalFunction {
                    code: ExternalFunctionCode::Kernel(callee),
                    signature: sig4(),
                },
                args: vec![0],
            },
        ],
        ret: 1,
    }
}

#[test]
fn test_compile_kernel_verifies() {
    let obj = compile_kernel(&adder_kernel(1)).unwrap();
    assert_eq!(obj.fn_id, 1);
    assert_eq!(obj.name, "adder");
    assert!(obj.externals.is_empty());
}

#[test]
fn test_pipeline_semantics_preserved() {
    // simulate the object before any pass and after the whole pipeline
    let kernel = adder_kernel(1);
    let ctx = infer(&kernel).unwrap();
    check_inference(&kernel, &ctx).unwrap();
    let before = compile(&kernel, &ctx).unwrap();
    let ctx2 = infer(&kernel).unwrap();
    let after = run_pass_pipeline(compile(&kernel, &ctx2).unwrap());
    assert!(after.instrs.len() < before.instrs.len());
    for a in 0..16u128 {
        for b in 0..16u128 {
            let inputs = vec![a, b, 1];
            let x = simulate(&before, &inputs).unwrap();
            let y = simulate(&after, &inputs).unwrap();
            assert_eq!(x, y);
            assert_eq!(x, (a + b) & 0xF);
        }
    }
}

#[test]
fn test_pass_idempotence_concrete() {
    // running each pass twice on its own output equals running it once
    let kernel = adder_kernel(9);
    let ctx = infer(&kernel).unwrap();
    let fresh = || {
        let ctx = infer(&kernel).unwrap();
        compile(&kernel, &ctx).unwrap()
    };
    let _ = ctx;
    let once = remove_extra_registers(fresh());
    let twice = remove_extra_registers(remove_extra_registers(fresh()));
    assert_eq!(format!("{:?}", once.instrs), format!("{:?}", twice.instrs));
    let once = remove_unneeded_muxes(fresh());
    let twice = remove_unneeded_muxes(remove_unneeded_muxes(fresh()));
    assert_eq!(format!("{:?}", once.instrs), format!("{:?}", twice.instrs));
    let once = remove_unused_literals(fresh());
    let twice = remove_unused_literals(remove_unused_literals(fresh()));
    assert_eq!(format!("{:?}", once.instrs), format!("{:?}", twice.instrs));
    let once = pre_cast_literals(fresh());
    let twice = pre_cast_literals(pre_cast_literals(fresh()));
    assert_eq!(format!("{:?}", once.instrs), format!("{:?}", twice.instrs));
    let once = remove_useless_casts(fresh());
    let twice = remove_useless_casts(remove_useless_casts(fresh()));
    assert_eq!(format!("{:?}", once.instrs), format!("{:?}", twice.instrs));
}

#[test]
fn test_compile_design_closure() {
    // a kernel calling two others, one of which calls a third:
    // the module holds exactly the four, each once
    let third = leaf_kernel(4);
    let second = calling_kernel(3, third);
    let first = leaf_kernel(2);
    let top = Kernel {
        fn_id: 1,
        name: "top".to_string(),
        arguments: vec![Kind::make_bits(4)],
        exprs: vec![
            Expr::Arg { index: 0 },
            Expr::Call {
                func: ExternalFunction {
                    code: ExternalFunctionCode::Kernel(first),
                    signature: sig4(),
                },
                args: vec![0],
            },
            Expr::Call {
                func: ExternalFunction {
                    code: ExternalFunctionCode::Kernel(second),
                    signature: sig4(),
                },
                args: vec![1],
            },
        ],
        ret: 2,
    };
    let module = compile_design(top).unwrap();
    assert_eq!(module.top, 1);
    assert_eq!(module.objects.len(), 4);
    let mut ids: Vec<u64> = module.objects.iter().map(|o| o.fn_id).collect();
    ids.sort();
    assert_eq!(ids, vec![1, 2, 3, 4]);
    assert!(module.object_for(3).is_some());
    assert!(module.object_for(9).is_none());
    let name = module.func_name(1).unwrap();
    assert_eq!(name, "top_1");
    assert!(module.func_name(9).is_err());
    let map = module.source_map();
    assert_eq!(map.len(), 4);
}

#[test]
fn test_compile_design_shared_callee() {
    // the same callee identity called from two sites is compiled once
    let top = Kernel {
        fn_id: 10,
        name: "twice".to_string(),
        arguments: vec![Kind::make_bits(4)],
        exprs: vec![
            Expr::Arg { index: 0 },
            Expr::Call {
                func: ExternalFunction {
                    code: ExternalFunctionCode::Kernel(leaf_kernel(11)),
                    signature: sig4(),
                },
                args: vec![0],
            },
            Expr::Call {
                func: ExternalFunction {
                    code: ExternalFunctionCode::Kernel(leaf_kernel(11)),
                    signature: sig4(),
                },
                args: vec![1],
            },
        ],
        ret: 2,
    };
    let module = compile_design(top).unwrap();
    assert_eq!(module.objects.len(), 2);
}

#[test]
fn test_extern_stub_not_compiled() {
    // an opaque externally defined primitive gets no module entry
    let top = Kernel {
        fn_id: 20,
        name: "uses_stub".to_string(),
        arguments: vec![Kind::make_bits(4)],
        exprs: vec![
            Expr::Arg { index: 0 },
            Expr::Call {
                func: ExternalFunction {
                    code: ExternalFunctionCode::Extern(ExternalKernelDef {
                        name: "prim".to_string(),
                        body: "function [3:0] prim(input [3:0] a); prim = a; endfunction"
                            .to_string(),
                    }),
                    signature: sig4(),
                },
                args: vec![0],
            },
        ],
        ret: 1,
    };
    let module = compile_design(top).unwrap();
    assert_eq!(module.objects.len(), 1);
}

#[test]
fn test_dynamic_index_lowering() {
    // an array read through a runtime index becomes a multiplexer chain
    let kernel = Kernel {
        fn_id: 30,
        name: "dyn_read".to_string(),
        arguments: vec![Kind::make_array(Kind::make_bits(8), 4), Kind::make_bits(2)],
        exprs: vec![
            Expr::Arg { index: 0 },
            Expr::Arg { index: 1 },
            Expr::IndexPath {
                arg: 0,
                path: Path::default().dynamic(Slot::Register(1)),
            },
        ],
        ret: 2,
    };
    let obj = compile_kernel(&kernel).unwrap();
    // array [0x11, 0x22, 0x33, 0x44] packed little-endian by element
    let packed: u128 = 0x44_33_22_11;
    for idx in 0..4u128 {
        let out = simulate(&obj, &vec![packed, idx]).unwrap();
        let expected = (packed >> (8 * idx)) & 0xFF;
        assert_eq!(out, expected);
    }
}

#[test]
fn test_inference_incomplete() {
    // a literal with no width and no constraining context stays unresolved
    let kernel = Kernel {
        fn_id: 40,
        name: "floating".to_string(),
        arguments: vec![],
        exprs: vec![Expr::Literal { value: 1, width: None }],
        ret: 0,
    };
    let ctx = infer(&kernel).unwrap();
    assert!(check_inference(&kernel, &ctx).is_err());
    assert!(compile_kernel(&kernel).is_err());
}

#[test]
fn test_inference_propagates_literal_width() {
    // an unannotated literal takes its width from its consumer
    let kernel = Kernel {
        fn_id: 41,
        name: "inferred".to_string(),
        arguments: vec![Kind::make_bits(8)],
        exprs: vec![
            Expr::Arg { index: 0 },
            Expr::Literal { value: 3, width: None },
            Expr::Binary { op: AluBinary::Add, arg1: 0, arg2: 1 },
        ],
        ret: 2,
    };
    let obj = compile_kernel(&kernel).unwrap();
    let out = simulate(&obj, &vec![10]).unwrap();
    assert_eq!(out, 13);
}

#[test]
fn test_unification_conflict() {
    // one node constrained to two different widths is a unification error
    let kernel = Kernel {
        fn_id: 42,
        name: "conflict".to_string(),
        arguments: vec![Kind::make_bits(8), Kind::make_bits(4)],
        exprs: vec![
            Expr::Arg { index: 0 },
            Expr::Arg { index: 1 },
            Expr::Binary { op: AluBinary::Add, arg1: 0, arg2: 1 },
        ],
        ret: 2,
    };
    assert!(infer(&kernel).is_err());
}
