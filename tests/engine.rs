use qsim::circuit::Circuit;
use qsim::gpu_context::{BufferSizes, Command, EngineError, GpuContext};

#[test]
fn planner_covers_the_state_space() {
    for q in 0..=30u32 {
        let (e, t, w) = GpuContext::get_params(q).unwrap();
        assert_eq!(e as u64 * t as u64 * w as u64, 1u64 << q, "qubits {}", q);
        assert!(e.is_power_of_two() && t.is_power_of_two() && w.is_power_of_two());
    }
}

#[test]
fn planner_regimes() {
    assert_eq!(GpuContext::get_params(0), Ok((1, 1, 1)));
    assert_eq!(GpuContext::get_params(5), Ok((32, 1, 1)));
    assert_eq!(GpuContext::get_params(9), Ok((512, 1, 1)));
    assert_eq!(GpuContext::get_params(10), Ok((1024, 1, 1)));
    assert_eq!(GpuContext::get_params(11), Ok((1024, 2, 1)));
    assert_eq!(GpuContext::get_params(12), Ok((1024, 4, 1)));
    assert_eq!(GpuContext::get_params(13), Ok((1024, 4, 2)));
    assert_eq!(GpuContext::get_params(20), Ok((1024, 4, 256)));
    assert_eq!(GpuContext::get_params(30), Ok((1024, 4, 262144)));
    assert_eq!(
        GpuContext::get_params(31),
        Err(EngineError::TooManyQubits { qubit_count: 31, limit: 30 })
    );
}

#[test]
fn construction_rejects_29_qubits() {
    let c = Circuit::from_str("x 28").unwrap();
    assert_eq!(c.qubit_count, 29);
    match GpuContext::new(c) {
        Err(e) => assert_eq!(e, EngineError::TooManyQubits { qubit_count: 29, limit: 28 }),
        Ok(_) => panic!("a 29-qubit circuit was accepted"),
    }
    let c = Circuit::from_str("x 27").unwrap();
    assert!(GpuContext::new(c).is_ok());
}

#[test]
fn bell_run_dispatches_each_op_in_order() {
    let c = Circuit::from_str("h 0\ncx 0 1\n").unwrap();
    let mut ctx = GpuContext::new(c).ok().unwrap();
    assert_eq!((ctx.entries_per_thread, ctx.threads_per_workgroup, ctx.workgroup_count), (4, 1, 1));
    assert!(matches!(ctx.run(), Err(EngineError::ResourcesNotInitialized)));
    ctx.create_resources();
    assert_eq!(
        ctx.resources,
        Some(BufferSizes { state_vector: 32, ops: 1024, results: 800, download: 800, result_index: 4 })
    );
    let cmds = ctx.run().ok().unwrap();
    assert_eq!(
        cmds,
        vec![
            Command::Dispatch { op_offset: 0, workgroup_count: 1 },
            Command::Dispatch { op_offset: 256, workgroup_count: 1 },
            Command::Dispatch { op_offset: 512, workgroup_count: 1 },
            Command::Dispatch { op_offset: 768, workgroup_count: 1 },
            Command::CopyResults { bytes: 800 },
        ]
    );
}

#[test]
fn large_circuit_uses_many_workgroups() {
    let c = Circuit::from_str("h 19\n").unwrap();
    let mut ctx = GpuContext::new(c).ok().unwrap();
    assert_eq!(ctx.workgroup_count, 256);
    assert_eq!(ctx.storage_binding_size(), (1u32 << 20) * 8);
    ctx.create_resources();
    assert_eq!(ctx.resources.unwrap().state_vector, (1u64 << 20) * 8);
    let cmds = ctx.run().ok().unwrap();
    assert_eq!(cmds[1], Command::Dispatch { op_offset: 256, workgroup_count: 256 });
}

#[test]
fn small_circuit_requests_one_mebibyte() {
    let ctx = GpuContext::new(Circuit::from_str("x 1").unwrap()).ok().unwrap();
    assert_eq!(ctx.storage_binding_size(), 1024 * 1024);
}
