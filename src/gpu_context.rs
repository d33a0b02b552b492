//! The dispatch engine's decisions: the partition of the state space over
//! lanes and workgroups, the sizes of the device buffers, and the ordered
//! command sequence of one run. Carrying the commands out on a device is left
//! to the caller.
use crate::circuit::Circuit;
use crate::shader_types::{
    MAX_QUBITS_PER_THREAD, MAX_QUBITS_PER_WORKGROUP, OP_RECORD_BYTES, RESULT_RECORD_BYTES,
};
use vstd::arithmetic::power::pow;
use vstd::arithmetic::power2::{is_pow2_exists, lemma_pow2, lemma_pow2_adds, pow2};
use vstd::bits::{lemma_u32_pow2_no_overflow, lemma_u32_shl_is_mul};
use vstd::prelude::*;

verus! {

/// The partition rule stops applying above this many qubits.
pub const MAX_PLAN_QUBITS: u32 = 30;
/// A state vector of more qubits would not fit a 32-bit byte count.
pub const MAX_DEVICE_QUBITS: u32 = 28;
/// The most instructions whose byte offsets fit a 32-bit dynamic offset.
pub const MAX_OPS: usize = 0x100_0000;
/// How many sampled outcomes the results buffer holds.
pub const RESULT_CAPACITY: u64 = 100;
/// Below this many qubits the device is asked for the minimum binding size.
pub const SMALL_CIRCUIT_QUBITS: u32 = 17;
/// The storage binding size requested for small circuits: one mebibyte.
pub const MIN_STORAGE_BINDING: u32 = 0x10_0000;
/// Bytes per amplitude: a real and an imaginary 32-bit float.
pub const AMPLITUDE_BYTES: u64 = 8;

/// Why the engine cannot go on.
#[derive(Clone, Copy, Debug, PartialEq, Eq)]
pub enum EngineError {
    /// The circuit has more qubits than `limit`.
    TooManyQubits { qubit_count: u32, limit: u32 },
    /// The circuit has more instructions than `MAX_OPS`.
    TooManyOps { op_count: usize },
    /// A run was asked for before the buffers were laid out.
    ResourcesNotInitialized,
}

/// The sizes, in bytes, of the device buffers of one run.
#[derive(Clone, Copy, Debug, PartialEq, Eq)]
pub struct BufferSizes {
    /// The state vector: two 32-bit floats per amplitude.
    pub state_vector: u64,
    /// Every instruction record back to back.
    pub ops: u64,
    /// The sampled outcomes the kernel writes.
    pub results: u64,
    /// The host-readable copy of the results.
    pub download: u64,
    /// The kernel's count of written outcomes.
    pub result_index: u64,
}

/// One step of a run, in submission order.
#[derive(Clone, Copy, Debug, PartialEq, Eq)]
pub enum Command {
    /// Bind the instruction window at `op_offset` and dispatch `workgroup_count`
    /// workgroups.
    Dispatch { op_offset: u32, workgroup_count: u32 },
    /// Copy `bytes` of the results buffer into the download buffer.
    CopyResults { bytes: u64 },
}

/// The exponents of two of the partition of `q` qubits: amplitudes per lane,
/// lanes per workgroup, workgroups.
pub open spec fn plan_exponents(q: nat) -> (nat, nat, nat) {
    let t = MAX_QUBITS_PER_THREAD as nat;
    let w = MAX_QUBITS_PER_WORKGROUP as nat;
    if q < t {
        (q, 0, 0)
    } else if q <= w {
        (t, (q - t) as nat, 0)
    } else {
        (t, (w - t) as nat, (q - w) as nat)
    }
}

/// The partition of `q` qubits: amplitudes per lane, lanes per workgroup,
/// workgroups.
pub open spec fn plan(q: nat) -> (nat, nat, nat) {
    let (a, b, c) = plan_exponents(q);
    (pow2(a), pow2(b), pow2(c))
}

pub open spec fn plan_u32(q: nat) -> (u32, u32, u32) {
    (plan(q).0 as u32, plan(q).1 as u32, plan(q).2 as u32)
}

/// For every supported qubit count the partition covers the state space
/// exactly, and each of its three numbers is a power of two.
pub proof fn lemma_plan_covers_state_space(q: nat)
    requires
        q <= MAX_PLAN_QUBITS,
    ensures
        plan(q).0 * plan(q).1 * plan(q).2 == pow2(q),
        is_pow2_exists(plan(q).0 as int),
        is_pow2_exists(plan(q).1 as int),
        is_pow2_exists(plan(q).2 as int),
{
    let (a, b, c) = plan_exponents(q);
    lemma_pow2_adds(a, b);
    lemma_pow2_adds(a + b, c);
    assert(a + b + c == q);
    lemma_pow2(a);
    lemma_pow2(b);
    lemma_pow2(c);
    assert(pow(2, a) == plan(q).0);
    assert(pow(2, b) == plan(q).1);
    assert(pow(2, c) == plan(q).2);
}

/// The storage binding size to ask of the device for `q` qubits.
pub open spec fn storage_binding(q: nat) -> nat {
    if q < SMALL_CIRCUIT_QUBITS {
        MIN_STORAGE_BINDING as nat
    } else {
        pow2(q) * (AMPLITUDE_BYTES as nat)
    }
}

/// The buffer sizes for `q` qubits and `n` instructions.
pub open spec fn buffer_sizes(q: nat, n: nat) -> BufferSizes {
    BufferSizes {
        state_vector: (pow2(q) * AMPLITUDE_BYTES) as u64,
        ops: (n * OP_RECORD_BYTES) as u64,
        results: (RESULT_CAPACITY * RESULT_RECORD_BYTES) as u64,
        download: (RESULT_CAPACITY * RESULT_RECORD_BYTES) as u64,
        result_index: 4,
    }
}

/// A run over `n` instructions: one dispatch per instruction, in order, each
/// with the window at that instruction's record, then the copy of the results.
pub open spec fn run_commands(n: nat, workgroup_count: u32, copy_bytes: u64) -> Seq<Command> {
    Seq::new(
        n,
        |i: int| Command::Dispatch { op_offset: (i * OP_RECORD_BYTES) as u32, workgroup_count },
    ).push(Command::CopyResults { bytes: copy_bytes })
}

/// `2^e`.
fn pow2_u32(e: u32) -> (r: u32)
    requires
        e < 32,
    ensures
        r as nat == pow2(e as nat),
{
    proof {
        lemma_u32_pow2_no_overflow(e as nat);
        lemma_u32_shl_is_mul(1, e);
    }
    1u32 << e
}

/// The engine for one circuit: the circuit, its partition, and the buffer
/// sizes once they are laid out.
pub struct GpuContext {
    pub circuit: Circuit,
    pub resources: Option<BufferSizes>,
    pub entries_per_thread: u32,
    pub threads_per_workgroup: u32,
    pub workgroup_count: u32,
}

impl GpuContext {
    /// The circuit fits the device and the partition is the one for its
    /// qubit count.
    pub open spec fn wf(&self) -> bool {
        &&& self.circuit.qubit_count <= MAX_DEVICE_QUBITS
        &&& self.circuit.ops@.len() <= MAX_OPS
        &&& (self.entries_per_thread, self.threads_per_workgroup, self.workgroup_count) == plan_u32(
            self.circuit.qubit_count as nat,
        )
    }

    /// Takes charge of `circuit`, with its partition. Fails, before any
    /// device resource is touched, when the circuit has more than
    /// `MAX_DEVICE_QUBITS` qubits or more than `MAX_OPS` instructions.
    pub fn new(circuit: Circuit) -> (r: Result<GpuContext, EngineError>)
        ensures
            circuit.qubit_count > MAX_DEVICE_QUBITS ==> r == Err::<GpuContext, EngineError>(
                EngineError::TooManyQubits {
                    qubit_count: circuit.qubit_count,
                    limit: MAX_DEVICE_QUBITS,
                },
            ),
            circuit.qubit_count <= MAX_DEVICE_QUBITS && circuit.ops@.len() > MAX_OPS ==> r == Err::<
                GpuContext,
                EngineError,
            >(EngineError::TooManyOps { op_count: circuit.ops@.len() as usize }),
            circuit.qubit_count <= MAX_DEVICE_QUBITS && circuit.ops@.len() <= MAX_OPS ==> r is Ok,
            r matches Ok(ctx) ==> ctx.wf() && ctx.circuit == circuit && ctx.resources is None,
    {
        if circuit.qubit_count > MAX_DEVICE_QUBITS {
            return Err(
                EngineError::TooManyQubits {
                    qubit_count: circuit.qubit_count,
                    limit: MAX_DEVICE_QUBITS,
                },
            );
        }
        if circuit.ops.len() > MAX_OPS {
            return Err(EngineError::TooManyOps { op_count: circuit.ops.len() });
        }
        let (entries_per_thread, threads_per_workgroup, workgroup_count) = match GpuContext::get_params(
            circuit.qubit_count,
        ) {
            Ok(p) => p,
            Err(e) => {
                return Err(e);
            },
        };
        Ok(
            GpuContext {
                circuit,
                resources: None,
                entries_per_thread,
                threads_per_workgroup,
                workgroup_count,
            },
        )
    }

    /// The partition of `qubit_count` qubits: amplitudes per lane, lanes per
    /// workgroup and workgroups, whose product is `2^qubit_count`. Fails above
    /// `MAX_PLAN_QUBITS`.
    pub fn get_params(qubit_count: u32) -> (r: Result<(u32, u32, u32), EngineError>)
        ensures
            qubit_count > MAX_PLAN_QUBITS ==> r == Err::<(u32, u32, u32), EngineError>(
                EngineError::TooManyQubits { qubit_count, limit: MAX_PLAN_QUBITS },
            ),
            qubit_count <= MAX_PLAN_QUBITS ==> r == Ok::<(u32, u32, u32), EngineError>(
                plan_u32(qubit_count as nat),
            ),
            r matches Ok(p) ==> p.0 as nat == plan(qubit_count as nat).0 && p.1 as nat == plan(
                qubit_count as nat,
            ).1 && p.2 as nat == plan(qubit_count as nat).2 && p.0 * p.1 * p.2 == pow2(
                qubit_count as nat,
            ),
    {
        if qubit_count > MAX_PLAN_QUBITS {
            return Err(EngineError::TooManyQubits { qubit_count, limit: MAX_PLAN_QUBITS });
        }
        proof {
            lemma_plan_covers_state_space(qubit_count as nat);
        }
        let r = if qubit_count < MAX_QUBITS_PER_THREAD {
            (pow2_u32(qubit_count), pow2_u32(0), pow2_u32(0))
        } else if qubit_count <= MAX_QUBITS_PER_WORKGROUP {
            (
                pow2_u32(MAX_QUBITS_PER_THREAD),
                pow2_u32(qubit_count - MAX_QUBITS_PER_THREAD),
                pow2_u32(0),
            )
        } else {
            (
                pow2_u32(MAX_QUBITS_PER_THREAD),
                pow2_u32(MAX_QUBITS_PER_WORKGROUP - MAX_QUBITS_PER_THREAD),
                pow2_u32(qubit_count - MAX_QUBITS_PER_WORKGROUP),
            )
        };
        Ok(r)
    }

    /// The storage binding size to request of the device: one mebibyte for
    /// small circuits, else the state vector's size.
    pub fn storage_binding_size(&self) -> (r: u32)
        requires
            self.wf(),
        ensures
            r as nat == storage_binding(self.circuit.qubit_count as nat),
    {
        let q = self.circuit.qubit_count;
        if q < SMALL_CIRCUIT_QUBITS {
            MIN_STORAGE_BINDING
        } else {
            let amplitudes = pow2_u32(q);
            proof {
                lemma_pow2_adds(q as nat, (MAX_DEVICE_QUBITS - q) as nat);
                vstd::arithmetic::power2::lemma2_to64();
                vstd::arithmetic::power2::lemma_pow2_pos((MAX_DEVICE_QUBITS - q) as nat);
            }
            amplitudes * AMPLITUDE_BYTES as u32
        }
    }

    /// Lays out the device buffers for the circuit.
    pub fn create_resources(&mut self)
        requires
            old(self).wf(),
        ensures
            final(self).wf(),
            final(self).circuit == old(self).circuit,
            final(self).entries_per_thread == old(self).entries_per_thread,
            final(self).threads_per_workgroup == old(self).threads_per_workgroup,
            final(self).workgroup_count == old(self).workgroup_count,
            final(self).resources == Some(
                buffer_sizes(old(self).circuit.qubit_count as nat, old(self).circuit.ops@.len()),
            ),
    {
        let amplitudes = pow2_u32(self.circuit.qubit_count) as u64;
        let n = self.circuit.ops.len() as u64;
        let stride = OP_RECORD_BYTES as u64;
        assert(n * stride <= 0x1_0000_0000) by (nonlinear_arith)
            requires
                n <= 0x100_0000,
                stride == 256,
        ;
        let result_bytes = RESULT_CAPACITY * RESULT_RECORD_BYTES as u64;
        self.resources = Some(
            BufferSizes {
                state_vector: amplitudes * AMPLITUDE_BYTES,
                ops: n * stride,
                results: result_bytes,
                download: result_bytes,
                result_index: 4,
            },
        );
    }

    /// The commands of one run, in submission order: a dispatch per
    /// instruction over the partition's workgroups, with the instruction
    /// window at that instruction's record, then the copy of the results into
    /// the download buffer. Fails when the buffers are not laid out.
    pub fn run(&self) -> (r: Result<Vec<Command>, EngineError>)
        requires
            self.wf(),
        ensures
            self.resources is None ==> r == Err::<Vec<Command>, EngineError>(
                EngineError::ResourcesNotInitialized,
            ),
            self.resources matches Some(sizes) ==> r matches Ok(cmds) && cmds@ == run_commands(
                self.circuit.ops@.len(),
                self.workgroup_count,
                sizes.download,
            ),
    {
        let sizes = match self.resources {
            None => {
                return Err(EngineError::ResourcesNotInitialized);
            },
            Some(sizes) => sizes,
        };
        let n = self.circuit.ops.len();
        let mut cmds: Vec<Command> = Vec::new();
        let mut i: usize = 0;
        while i < n
            invariant
                i <= n,
                n <= MAX_OPS,
                cmds@ =~= run_commands(n as nat, self.workgroup_count, sizes.download).take(
                    i as int,
                ),
            decreases n - i,
        {
            let offset = (i as u32) * (OP_RECORD_BYTES as u32);
            cmds.push(Command::Dispatch { op_offset: offset, workgroup_count: self.workgroup_count });
            i = i + 1;
        }
        cmds.push(Command::CopyResults { bytes: sizes.download });
        assert(cmds@ =~= run_commands(n as nat, self.workgroup_count, sizes.download));
        Ok(cmds)
    }
}

} // verus!
