//! The stepping execution engine.
//!
//! The engine owns a translated program, a fixed-size zero-initialized byte
//! tape, an instruction pointer, and a tape pointer, together with the two
//! byte ports. `step` executes exactly one instruction; `run` repeats `step`
//! until the program halts or an instruction faults. Moving the tape pointer
//! before the first cell or at or past the tape's end is a fatal bounds
//! fault: the move is refused, nothing changes, and an error is returned.

use vstd::prelude::*;

use crate::ir::{ir_wf, translate, IR, Op, ParseError};
use crate::ports::{ByteSink, ByteSource};

verus! {

/// Wrapping increment of a cell: 255 increments to 0.
pub open spec fn byte_inc(b: u8) -> u8 {
    if b == 255 {
        0
    } else {
        (b + 1) as u8
    }
}

/// Wrapping decrement of a cell: 0 decrements to 255.
pub open spec fn byte_dec(b: u8) -> u8 {
    if b == 0 {
        255
    } else {
        (b - 1) as u8
    }
}

/// The observable execution state of an engine: the instruction pointer, the
/// tape pointer, the tape contents, and the histories of both ports.
#[verifier::ext_equal]
pub ghost struct ExecState {
    /// The index of the next instruction to execute.
    pub ip: nat,
    /// The index of the currently selected tape cell.
    pub ptr: nat,
    /// The tape contents.
    pub tape: Seq<u8>,
    /// Every byte handed to the output port so far, oldest first.
    pub output: Seq<u8>,
    /// Every byte drawn from the input port so far, oldest first.
    pub input_log: Seq<u8>,
}

/// Whether the next instruction would move the tape pointer off the tape.
pub open spec fn step_faults(ops: Seq<Op>, st: ExecState) -> bool {
    st.ip < ops.len() && {
        ||| (ops[st.ip as int] is IncPtr && st.ptr + 1 >= st.tape.len())
        ||| (ops[st.ip as int] is DecPtr && st.ptr == 0)
    }
}

/// The state after executing the instruction at `st.ip`, provided one exists
/// and it does not fault. `inb` is the byte the input port produced if the
/// instruction reads input; it is ignored otherwise. The instruction pointer
/// always advances by one, after the conditional jump if there is one: a
/// loop-start with a zero cell lands just past its matching loop-end, and a
/// loop-end with a nonzero cell lands just past its matching loop-start.
pub open spec fn step_ok(ops: Seq<Op>, jt: Seq<u32>, st: ExecState, inb: u8) -> ExecState
    recommends
        st.ip < ops.len(),
        !step_faults(ops, st),
        st.ptr < st.tape.len(),
{
    let cell = st.tape[st.ptr as int];
    match ops[st.ip as int] {
        Op::IncPtr => ExecState { ip: st.ip + 1, ptr: st.ptr + 1, ..st },
        Op::DecPtr => ExecState { ip: st.ip + 1, ptr: (st.ptr - 1) as nat, ..st },
        Op::IncByte => ExecState {
            ip: st.ip + 1,
            tape: st.tape.update(st.ptr as int, byte_inc(cell)),
            ..st
        },
        Op::DecByte => ExecState {
            ip: st.ip + 1,
            tape: st.tape.update(st.ptr as int, byte_dec(cell)),
            ..st
        },
        Op::OutByte => ExecState { ip: st.ip + 1, output: st.output.push(cell), ..st },
        Op::InByte => ExecState {
            ip: st.ip + 1,
            tape: st.tape.update(st.ptr as int, inb),
            input_log: st.input_log.push(inb),
            ..st
        },
        Op::LoopStart => ExecState {
            ip: if cell == 0 {
                jt[st.ip as int] as nat + 1
            } else {
                st.ip + 1
            },
            ..st
        },
        Op::LoopEnd => ExecState {
            ip: if cell != 0 {
                jt[st.ip as int] as nat + 1
            } else {
                st.ip + 1
            },
            ..st
        },
    }
}

/// Consecutive entries of `tr` are linked by the small-step semantics: each
/// state has a next instruction, that instruction does not fault, and the
/// following state is the result of executing it.
pub open spec fn steps_linked(ops: Seq<Op>, jt: Seq<u32>, tr: Seq<ExecState>) -> bool {
    forall|k: int|
        0 <= k < tr.len() - 1 ==> (#[trigger] tr[k]).ip < ops.len() && !step_faults(ops, tr[k])
            && tr[k + 1] == step_ok(ops, jt, tr[k], tr[k + 1].input_log.last())
}

/// `tr` is an execution trace of the program from `pre` to `post`: it starts
/// at `pre`, ends at `post`, and its entries are linked by the small-step
/// semantics.
pub open spec fn is_trace(
    ops: Seq<Op>,
    jt: Seq<u32>,
    pre: ExecState,
    post: ExecState,
    tr: Seq<ExecState>,
) -> bool {
    &&& tr.len() >= 1
    &&& tr[0] == pre
    &&& tr.last() == post
    &&& steps_linked(ops, jt, tr)
}

/// `post` is reachable from `pre` by zero or more non-faulting steps of the
/// program.
pub open spec fn reaches(ops: Seq<Op>, jt: Seq<u32>, pre: ExecState, post: ExecState) -> bool {
    exists|tr: Seq<ExecState>| #[trigger] is_trace(ops, jt, pre, post, tr)
}

/// The tape pointer was asked to move before the first cell or at or past the
/// tape's end; the move was refused and the engine is unchanged.
#[derive(Debug, Clone, Copy, PartialEq, Eq, Structural)]
pub struct TapeBoundsError;

/// Options for building an engine.
pub struct VMOptions<S: ByteSink, R: ByteSource> {
    /// The size of the tape in bytes; must be positive.
    pub memory_buffer_size: u32,
    /// The output port, invoked once per output instruction.
    pub out_fn: S,
    /// The input port, invoked once per input instruction.
    pub in_fn: R,
}

/// The execution engine.
pub struct VM<S: ByteSink, R: ByteSource> {
    /// The program to execute.
    pub ir: IR,
    /// The tape: fixed-size, zero-initialized at construction.
    pub memory_buffer: Vec<u8>,
    /// The index of the currently selected tape cell.
    pub memory_buffer_ptr: u32,
    /// The index of the next instruction to execute.
    pub current_token_idx: u32,
    /// The output port.
    pub out_fn: S,
    /// The input port.
    pub in_fn: R,
}

impl<S: ByteSink, R: ByteSource> VM<S, R> {
    /// The program's instructions.
    pub open spec fn ops(&self) -> Seq<Op> {
        self.ir.tokens@
    }

    /// The program's jump table.
    pub open spec fn jt(&self) -> Seq<u32> {
        self.ir.jump_table@
    }

    /// The observable execution state.
    pub open spec fn st(&self) -> ExecState {
        ExecState {
            ip: self.current_token_idx as nat,
            ptr: self.memory_buffer_ptr as nat,
            tape: self.memory_buffer@,
            output: self.out_fn.bytes(),
            input_log: self.in_fn.reads(),
        }
    }

    /// Engine well-formedness: the program's loops are paired, the tape is
    /// nonempty and 32-bit addressable, and both pointers are in range.
    pub open spec fn wf(&self) -> bool {
        &&& ir_wf(self.ops(), self.jt())
        &&& 0 < self.memory_buffer@.len() <= u32::MAX
        &&& self.memory_buffer_ptr < self.memory_buffer@.len()
        &&& self.current_token_idx <= self.ops().len()
    }

    /// Create a new engine from a source string, translating it first and
    /// propagating any translation failure. As in the translator, the source
    /// may hold at most `u32::MAX` characters.
    pub fn new(source: &str, options: VMOptions<S, R>) -> (r: Result<Self, ParseError>)
        requires
            source@.len() <= u32::MAX,
            options.memory_buffer_size > 0,
        ensures
            match r {
                Ok(vm) => {
                    &&& translate(source@) == Ok::<_, ParseError>((vm.ops(), vm.jt()))
                    &&& vm.wf()
                    &&& vm.st().ip == 0
                    &&& vm.st().ptr == 0
                    &&& vm.st().tape == Seq::new(options.memory_buffer_size as nat, |k: int| 0u8)
                    &&& vm.st().output == options.out_fn.bytes()
                    &&& vm.st().input_log == options.in_fn.reads()
                },
                Err(e) => translate(source@) == Err::<(Seq<Op>, Seq<u32>), _>(e),
            },
    {
        let ir = match IR::from_str(source) {
            Ok(ir) => ir,
            Err(e) => {
                return Err(e);
            },
        };
        Ok(Self::from_ir(ir, options))
    }

    /// Create a new engine from an already-translated program, with a
    /// zero-filled tape and both pointers at zero.
    pub fn from_ir(ir: IR, options: VMOptions<S, R>) -> (vm: Self)
        requires
            ir.wf(),
            options.memory_buffer_size > 0,
        ensures
            vm.wf(),
            vm.ops() == ir.tokens@,
            vm.jt() == ir.jump_table@,
            vm.st().ip == 0,
            vm.st().ptr == 0,
            vm.st().tape == Seq::new(options.memory_buffer_size as nat, |k: int| 0u8),
            vm.st().output == options.out_fn.bytes(),
            vm.st().input_log == options.in_fn.reads(),
    {
        let size = options.memory_buffer_size;
        let mut memory_buffer: Vec<u8> = Vec::new();
        let mut k: u32 = 0;
        while k < size
            invariant
                k <= size,
                memory_buffer@.len() == k as nat,
                forall|j: int| 0 <= j < k ==> memory_buffer@[j] == 0u8,
            decreases size - k,
        {
            memory_buffer.push(0);
            k = k + 1;
        }
        proof {
            assert(memory_buffer@ =~= Seq::new(size as nat, |j: int| 0u8));
        }
        VM {
            ir,
            memory_buffer,
            memory_buffer_ptr: 0,
            current_token_idx: 0,
            out_fn: options.out_fn,
            in_fn: options.in_fn,
        }
    }

    /// Execute a single instruction.
    ///
    /// Past the end of the program this does nothing and reports completion,
    /// however often it is called. Otherwise it performs one step of the
    /// small-step semantics `step_ok` and reports whether the instruction
    /// pointer still references a valid instruction — unless the instruction
    /// would move the tape pointer off the tape, in which case nothing
    /// changes and the bounds fault is returned.
    pub fn step(&mut self) -> (r: Result<bool, TapeBoundsError>)
        requires
            old(self).wf(),
        ensures
            final(self).wf(),
            final(self).ops() == old(self).ops(),
            final(self).jt() == old(self).jt(),
            old(self).st().ip >= old(self).ops().len() ==> r == Ok::<bool, TapeBoundsError>(false)
                && *final(self) == *old(self),
            step_faults(old(self).ops(), old(self).st()) ==> r == Err::<bool, TapeBoundsError>(
                TapeBoundsError,
            ) && *final(self) == *old(self),
            old(self).st().ip < old(self).ops().len() && !step_faults(
                old(self).ops(),
                old(self).st(),
            ) ==> {
                &&& final(self).st() == step_ok(
                    old(self).ops(),
                    old(self).jt(),
                    old(self).st(),
                    final(self).st().input_log.last(),
                )
                &&& r == Ok::<bool, TapeBoundsError>(final(self).st().ip < old(self).ops().len())
            },
    {
        let idx = self.current_token_idx as usize;
        // Check if we've reached the end of the program.
        if idx >= self.ir.tokens.len() {
            return Ok(false);
        }
        let current_token = self.ir.tokens[idx];
        let heap_ptr = self.memory_buffer_ptr as usize;

        // Execute the current instruction.
        match current_token {
            Op::IncPtr => {
                if heap_ptr + 1 >= self.memory_buffer.len() {
                    return Err(TapeBoundsError);
                }
                self.memory_buffer_ptr = self.memory_buffer_ptr + 1;
            },
            Op::DecPtr => {
                if self.memory_buffer_ptr == 0 {
                    return Err(TapeBoundsError);
                }
                self.memory_buffer_ptr = self.memory_buffer_ptr - 1;
            },
            Op::IncByte => {
                let cell = self.memory_buffer[heap_ptr];
                self.memory_buffer.set(heap_ptr, cell.wrapping_add(1));
            },
            Op::DecByte => {
                let cell = self.memory_buffer[heap_ptr];
                self.memory_buffer.set(heap_ptr, cell.wrapping_sub(1));
            },
            Op::OutByte => {
                let cell = self.memory_buffer[heap_ptr];
                self.out_fn.put_byte(cell);
            },
            Op::InByte => {
                let b = self.in_fn.get_byte();
                self.memory_buffer.set(heap_ptr, b);
            },
            Op::LoopStart => {
                // If the current cell is 0, jump to the matching `]`.
                if self.memory_buffer[heap_ptr] == 0 {
                    self.current_token_idx = self.ir.jump_table[idx];
                }
            },
            Op::LoopEnd => {
                // If the current cell is not 0, jump to the matching `[`.
                if self.memory_buffer[heap_ptr] != 0 {
                    self.current_token_idx = self.ir.jump_table[idx];
                }
            },
        }

        self.current_token_idx = self.current_token_idx + 1;

        proof {
            assert(self.st() =~= step_ok(
                old(self).ops(),
                old(self).jt(),
                old(self).st(),
                self.st().input_log.last(),
            ));
        }

        // Report whether there are more instructions to execute.
        Ok((self.current_token_idx as usize) < self.ir.tokens.len())
    }

    /// Run the engine by repeated stepping, for at most `max_steps`
    /// instructions, and report whether work remains: `Ok(false)` once the
    /// program has finished executing, `Ok(true)` if the step budget ran out
    /// first, in which case exactly `max_steps` instructions were executed.
    /// The state the engine is left in is always reachable from the starting
    /// state by the small-step semantics. An instruction that faults on the
    /// tape's bounds stops the run and leaves the engine exactly at the
    /// faulting instruction.
    pub fn run(&mut self, max_steps: u64) -> (r: Result<bool, TapeBoundsError>)
        requires
            old(self).wf(),
        ensures
            final(self).wf(),
            final(self).ops() == old(self).ops(),
            final(self).jt() == old(self).jt(),
            reaches(old(self).ops(), old(self).jt(), old(self).st(), final(self).st()),
            r == Ok::<bool, TapeBoundsError>(false) ==> final(self).st().ip >= final(self).ops().len(),
            r == Ok::<bool, TapeBoundsError>(true) ==> final(self).st().ip < final(self).ops().len()
                && exists|tr: Seq<ExecState>|
                #[trigger] is_trace(
                    old(self).ops(),
                    old(self).jt(),
                    old(self).st(),
                    final(self).st(),
                    tr,
                ) && tr.len() == max_steps + 1,
            r is Err ==> step_faults(final(self).ops(), final(self).st()),
    {
        let ghost ops = old(self).ops();
        let ghost jt = old(self).jt();
        let mut steps_left = max_steps;
        let ghost mut tr: Seq<ExecState> = seq![old(self).st()];
        while steps_left > 0
            invariant
                self.wf(),
                ops == old(self).ops(),
                jt == old(self).jt(),
                self.ops() == ops,
                self.jt() == jt,
                steps_left <= max_steps,
                is_trace(ops, jt, old(self).st(), self.st(), tr),
                tr.len() == max_steps - steps_left + 1,
            decreases steps_left,
        {
            let ghost pre_tr = tr;
            let ghost pre_st = self.st();
            match self.step() {
                Ok(true) => {
                    proof {
                        tr = tr.push(self.st());
                        assert(steps_linked(ops, jt, tr)) by {
                            assert(forall|k: int|
                                0 <= k < pre_tr.len() - 1 ==> (#[trigger] tr[k]) == pre_tr[k]
                                    && tr[k + 1] == pre_tr[k + 1]);
                            assert(tr[pre_tr.len() - 1] == pre_st);
                            assert(tr[pre_tr.len() as int] == self.st());
                        }
                    }
                    steps_left = steps_left - 1;
                },
                Ok(false) => {
                    proof {
                        if pre_st.ip < ops.len() {
                            tr = tr.push(self.st());
                            assert(steps_linked(ops, jt, tr)) by {
                                assert(forall|k: int|
                                    0 <= k < pre_tr.len() - 1 ==> (#[trigger] tr[k]) == pre_tr[k]
                                        && tr[k + 1] == pre_tr[k + 1]);
                                assert(tr[pre_tr.len() - 1] == pre_st);
                                assert(tr[pre_tr.len() as int] == self.st());
                            }
                        }
                        assert(is_trace(ops, jt, old(self).st(), self.st(), tr));
                    }
                    return Ok(false);
                },
                Err(e) => {
                    proof {
                        assert(is_trace(ops, jt, old(self).st(), self.st(), tr));
                    }
                    return Err(e);
                },
            }
        }
        Ok((self.current_token_idx as usize) < self.ir.tokens.len())
    }
}

} // verus!
