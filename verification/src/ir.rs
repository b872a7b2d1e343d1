//! Instruction representation and the translator.
//!
//! The translator scans source text once, left to right. Every character that
//! stands for one of the eight instructions is appended to the output
//! sequence; every other character is a comment and is skipped. A stack of
//! still-open loops resolves loop boundaries: when a loop ends, the jump table
//! is filled in at both the loop-start's and the loop-end's output index, so
//! the engine can jump between the two in constant time.

use vstd::prelude::*;

verus! {

/// A single instruction of the language.
#[derive(Debug, Clone, Copy, PartialEq, Eq, Structural)]
pub enum Op {
    /// `>`: move the tape pointer one cell to the right.
    IncPtr,
    /// `<`: move the tape pointer one cell to the left.
    DecPtr,
    /// `+`: increment the current cell, wrapping at 255.
    IncByte,
    /// `-`: decrement the current cell, wrapping at 0.
    DecByte,
    /// `.`: send the current cell to the output port.
    OutByte,
    /// `,`: overwrite the current cell with a byte from the input port.
    InByte,
    /// `[`: jump past the matching `]` when the current cell is zero.
    LoopStart,
    /// `]`: jump back past the matching `[` when the current cell is nonzero.
    LoopEnd,
}

/// The instruction, if any, that a source character stands for; every other
/// character is a comment.
pub open spec fn op_of_char(c: char) -> Option<Op> {
    if c == '>' {
        Some(Op::IncPtr)
    } else if c == '<' {
        Some(Op::DecPtr)
    } else if c == '+' {
        Some(Op::IncByte)
    } else if c == '-' {
        Some(Op::DecByte)
    } else if c == '.' {
        Some(Op::OutByte)
    } else if c == ',' {
        Some(Op::InByte)
    } else if c == '[' {
        Some(Op::LoopStart)
    } else if c == ']' {
        Some(Op::LoopEnd)
    } else {
        None
    }
}

/// The source character that an instruction prints back as.
pub open spec fn char_of_op(op: Op) -> char {
    match op {
        Op::IncPtr => '>',
        Op::DecPtr => '<',
        Op::IncByte => '+',
        Op::DecByte => '-',
        Op::OutByte => '.',
        Op::InByte => ',',
        Op::LoopStart => '[',
        Op::LoopEnd => ']',
    }
}

impl Op {
    /// Create an instruction from a source character; a comment character
    /// gives `None`.
    pub fn from_char(ch: char) -> (r: Option<Self>)
        ensures
            r == op_of_char(ch),
    {
        match ch {
            '>' => Some(Op::IncPtr),
            '<' => Some(Op::DecPtr),
            '+' => Some(Op::IncByte),
            '-' => Some(Op::DecByte),
            '.' => Some(Op::OutByte),
            ',' => Some(Op::InByte),
            '[' => Some(Op::LoopStart),
            ']' => Some(Op::LoopEnd),
            _ => None,
        }
    }

    /// Convert an instruction back into its source character.
    pub fn into_char(self) -> (r: char)
        ensures
            r == char_of_op(self),
    {
        match self {
            Op::IncPtr => '>',
            Op::DecPtr => '<',
            Op::IncByte => '+',
            Op::DecByte => '-',
            Op::OutByte => '.',
            Op::InByte => ',',
            Op::LoopStart => '[',
            Op::LoopEnd => ']',
        }
    }
}

/// A character that stands for an instruction maps back to itself.
pub proof fn lemma_char_op_round_trip(c: char)
    ensures
        op_of_char(c) matches Some(op) ==> char_of_op(op) == c,
{
}

/// An instruction's character maps back to the instruction.
pub proof fn lemma_op_char_round_trip(op: Op)
    ensures
        op_of_char(char_of_op(op)) == Some(op),
{
}

/// Kinds of parse errors that can occur.
#[derive(Debug, Clone, Copy, PartialEq, Eq, Structural)]
pub enum ParseErrorKind {
    /// A `[` was found without a matching `]`.
    UnclosedLoop,
    /// A `]` was found without a matching `[` before it.
    UnexpectedLoopEnd,
}

/// A parsing error with position and kind.
#[derive(Debug, Clone, Copy, PartialEq, Eq, Structural)]
pub struct ParseError {
    /// The index, in the source's character sequence, of the character where
    /// the error occurred.
    pub token_pos: u32,
    /// The type of error that occurred.
    pub kind: ParseErrorKind,
}

impl ParseError {
    /// Create a new parse error.
    pub fn new(token_pos: u32, kind: ParseErrorKind) -> (r: Self)
        ensures
            r == (ParseError { token_pos, kind }),
    {
        ParseError { token_pos, kind }
    }
}

/// A translated program: the instruction sequence and the jump table.
///
/// `jump_table[i]` gives the instruction index to conditionally jump to for
/// `tokens[i]`; only `LoopStart` and `LoopEnd` instructions need jumping. The
/// table is sized to at least the instruction sequence's length, and entries
/// at non-loop indices are unused and never read.
#[derive(Debug)]
pub struct IR {
    /// The instruction sequence, in source order with comments removed.
    pub tokens: Vec<Op>,
    /// The jump table: `jump_table[loop_start] == loop_end` and
    /// `jump_table[loop_end] == loop_start` for every matched pair.
    pub jump_table: Vec<u32>,
}

/// A loop-start at index `i` is paired: the table sends it forward to a
/// loop-end that the table sends back to `i`.
pub open spec fn loop_start_paired(ops: Seq<Op>, jt: Seq<u32>, i: int) -> bool {
    &&& i < jt.len()
    &&& i < jt[i]
    &&& jt[i] < ops.len()
    &&& ops[jt[i] as int] is LoopEnd
    &&& jt[jt[i] as int] == i
}

/// A loop-end at index `i` is paired: the table sends it back to a loop-start
/// that the table sends forward to `i`.
pub open spec fn loop_end_paired(ops: Seq<Op>, jt: Seq<u32>, i: int) -> bool {
    &&& i < jt.len()
    &&& jt[i] < i
    &&& ops[jt[i] as int] is LoopStart
    &&& jt[jt[i] as int] == i
}

/// Well-formedness of a translated program: the jump table covers at least
/// the instructions, and every loop instruction is paired with its partner
/// through it.
pub open spec fn ir_wf(ops: Seq<Op>, jt: Seq<u32>) -> bool {
    &&& ops.len() <= u32::MAX
    &&& ops.len() <= jt.len()
    &&& forall|i: int|
        0 <= i < ops.len() && (#[trigger] ops[i]) is LoopStart ==> loop_start_paired(ops, jt, i)
    &&& forall|i: int|
        0 <= i < ops.len() && (#[trigger] ops[i]) is LoopEnd ==> loop_end_paired(ops, jt, i)
}

impl IR {
    /// Every loop instruction is paired with its partner through the table.
    pub open spec fn wf(&self) -> bool {
        ir_wf(self.tokens@, self.jump_table@)
    }
}

/// For every loop-start at index `i` of a well-formed program, with
/// `jump_table[i] == j`: the instruction at `j` is a loop-end, and
/// `jump_table[j] == i`.
pub proof fn lemma_jump_table_symmetric(ir: &IR, i: int)
    requires
        ir.wf(),
        0 <= i < ir.tokens@.len(),
        ir.tokens@[i] is LoopStart,
    ensures
        i < ir.jump_table@.len(),
        ir.jump_table@[i] < ir.tokens@.len(),
        ir.tokens@[ir.jump_table@[i] as int] is LoopEnd,
        ir.jump_table@[ir.jump_table@[i] as int] == i,
{
}

/// The translator's intermediate state, at specification level: the
/// instructions emitted so far, the jump table built so far, and the stack of
/// still-open loops, each entry holding the loop-start's index in the output
/// and its position in the source.
#[verifier::ext_equal]
pub ghost struct ScanState {
    pub tokens: Seq<Op>,
    pub jump_table: Seq<u32>,
    pub stack: Seq<(nat, nat)>,
}

impl ScanState {
    /// The state before any character has been scanned.
    pub open spec fn init() -> ScanState {
        ScanState { tokens: Seq::empty(), jump_table: Seq::empty(), stack: Seq::empty() }
    }
}

/// `jt` grown with zero entries until its length is at least `n`.
pub open spec fn grow_zeros(jt: Seq<u32>, n: nat) -> Seq<u32> {
    if jt.len() >= n {
        jt
    } else {
        jt + Seq::new((n - jt.len()) as nat, |k: int| 0u32)
    }
}

/// One translator step, on the character `c` at source position `i`.
pub open spec fn scan_char(st: ScanState, c: char, i: nat) -> Result<ScanState, ParseError> {
    match op_of_char(c) {
        None => Ok(st),
        Some(op) => match op {
            Op::LoopStart => Ok(
                ScanState {
                    tokens: st.tokens.push(op),
                    jump_table: st.jump_table,
                    stack: st.stack.push((st.tokens.len(), i)),
                },
            ),
            Op::LoopEnd => {
                if st.stack.len() == 0 {
                    Err(ParseError { token_pos: i as u32, kind: ParseErrorKind::UnexpectedLoopEnd })
                } else {
                    let s_idx = st.stack.last().0;
                    let cur = st.tokens.len();
                    Ok(
                        ScanState {
                            tokens: st.tokens.push(op),
                            jump_table: grow_zeros(st.jump_table, cur + 1).update(
                                s_idx as int,
                                cur as u32,
                            ).update(cur as int, s_idx as u32),
                            stack: st.stack.drop_last(),
                        },
                    )
                }
            },
            _ => Ok(
                ScanState {
                    tokens: st.tokens.push(op),
                    jump_table: st.jump_table,
                    stack: st.stack,
                },
            ),
        },
    }
}

/// The translator's result on the characters of `s` from position `i` on,
/// starting from state `st`.
pub open spec fn scan_from(s: Seq<char>, i: nat, st: ScanState) -> Result<ScanState, ParseError>
    decreases s.len() - i,
{
    if i >= s.len() {
        Ok(st)
    } else {
        match scan_char(st, s[i as int], i) {
            Err(e) => Err(e),
            Ok(st2) => scan_from(s, i + 1, st2),
        }
    }
}

/// The whole translation of source `s`: the instruction sequence and jump
/// table, or the first error. The jump table is padded with zeroes to the
/// instruction sequence's length; its entries at non-loop indices are unused.
/// A loop-end with no open loop fails immediately at its own position; a loop
/// left open at the end of the scan fails at the position of the innermost
/// (most recently opened) unmatched loop-start.
pub open spec fn translate(s: Seq<char>) -> Result<(Seq<Op>, Seq<u32>), ParseError> {
    match scan_from(s, 0, ScanState::init()) {
        Err(e) => Err(e),
        Ok(st) => {
            if st.stack.len() > 0 {
                Err(
                    ParseError {
                        token_pos: st.stack.last().1 as u32,
                        kind: ParseErrorKind::UnclosedLoop,
                    },
                )
            } else {
                Ok((st.tokens, grow_zeros(st.jump_table, st.tokens.len())))
            }
        },
    }
}

/// The instructions of `s` in order, comments skipped.
pub open spec fn ops_of(s: Seq<char>) -> Seq<Op>
    decreases s.len(),
{
    if s.len() == 0 {
        Seq::empty()
    } else {
        match op_of_char(s.last()) {
            Some(op) => ops_of(s.drop_last()).push(op),
            None => ops_of(s.drop_last()),
        }
    }
}

/// Over comment-free source, translation keeps every character, in order:
/// mapping the instruction sequence back to characters gives the source back.
pub proof fn lemma_comment_free_round_trip(s: Seq<char>)
    requires
        forall|i: int| 0 <= i < s.len() ==> (#[trigger] op_of_char(s[i])) is Some,
    ensures
        ops_of(s).map_values(|op: Op| char_of_op(op)) == s,
    decreases s.len(),
{
    let f = |op: Op| char_of_op(op);
    if s.len() == 0 {
        assert(ops_of(s).map_values(f) =~= s);
    } else {
        lemma_comment_free_round_trip(s.drop_last());
        let op = op_of_char(s.last())->Some_0;
        assert(ops_of(s) == ops_of(s.drop_last()).push(op));
        assert(f(op) == s.last());
        assert(ops_of(s).map_values(f) =~= ops_of(s.drop_last()).map_values(f).push(f(op)));
        assert(ops_of(s).map_values(f) =~= s);
    }
}

/// Whether some open-loop stack entry points at output index `t`.
pub open spec fn stack_has(stack: Seq<(nat, nat)>, t: int) -> bool {
    exists|k: int| 0 <= k < stack.len() && (#[trigger] stack[k]).0 == t
}

/// The invariant the translator maintains while scanning: stack entries are
/// loop-starts in strictly increasing order that are still open; every other
/// loop-start, and every loop-end, is already paired through the table, and
/// no loop-end's partner is still open.
pub open spec fn scan_wf(st: ScanState) -> bool {
    &&& st.jump_table.len() <= st.tokens.len()
    &&& forall|k: int|
        0 <= k < st.stack.len() ==> (#[trigger] st.stack[k]).0 < st.tokens.len()
            && st.tokens[st.stack[k].0 as int] is LoopStart
    &&& forall|k1: int, k2: int|
        0 <= k1 < k2 < st.stack.len() ==> (#[trigger] st.stack[k1]).0 < (#[trigger] st.stack[k2]).0
    &&& forall|t: int|
        0 <= t < st.tokens.len() && (#[trigger] st.tokens[t]) is LoopStart && !stack_has(
            st.stack,
            t,
        ) ==> loop_start_paired(st.tokens, st.jump_table, t)
    &&& forall|t: int|
        0 <= t < st.tokens.len() && (#[trigger] st.tokens[t]) is LoopEnd ==> loop_end_paired(
            st.tokens,
            st.jump_table,
            t,
        ) && !stack_has(st.stack, st.jump_table[t] as int)
}

/// One translator step keeps the scan invariant.
pub proof fn lemma_scan_char_preserves_wf(st: ScanState, c: char, i: nat)
    requires
        scan_wf(st),
        st.tokens.len() < u32::MAX,
    ensures
        scan_char(st, c, i) matches Ok(st2) ==> scan_wf(st2),
{
    if scan_char(st, c, i) is Ok {
        let st2 = scan_char(st, c, i)->Ok_0;
        match op_of_char(c) {
            None => {
            },
            Some(op) => {
                if op is LoopStart {
                    let cur = st.tokens.len() as int;
                    assert forall|t: int|
                        0 <= t < st2.tokens.len() && (#[trigger] st2.tokens[t]) is LoopStart
                            && !stack_has(st2.stack, t) implies loop_start_paired(
                        st2.tokens,
                        st2.jump_table,
                        t,
                    ) by {
                        if t == cur {
                            assert(st2.stack[st2.stack.len() - 1].0 == t);
                            assert(stack_has(st2.stack, t));
                        } else {
                            assert(!stack_has(st.stack, t)) by {
                                if stack_has(st.stack, t) {
                                    let k = choose|k: int|
                                        0 <= k < st.stack.len() && (#[trigger] st.stack[k]).0 == t;
                                    assert(st2.stack[k].0 == t);
                                }
                            }
                            assert(loop_start_paired(st.tokens, st.jump_table, t));
                        }
                    }
                    assert forall|t: int|
                        0 <= t < st2.tokens.len() && (#[trigger] st2.tokens[t]) is LoopEnd implies
                        loop_end_paired(st2.tokens, st2.jump_table, t) && !stack_has(
                        st2.stack,
                        st2.jump_table[t] as int,
                    ) by {
                        assert(st.tokens[t] is LoopEnd);
                        assert(loop_end_paired(st.tokens, st.jump_table, t));
                        let p = st.jump_table[t] as int;
                        assert(!stack_has(st.stack, p));
                        assert forall|k: int| 0 <= k < st2.stack.len() implies (
                        #[trigger] st2.stack[k]).0 != p by {
                            if k < st.stack.len() {
                                assert(st.stack[k].0 == st2.stack[k].0);
                            } else {
                                assert(st2.stack[k].0 == cur);
                                assert(st.tokens[p] is LoopStart);
                                assert(p < cur);
                            }
                        }
                    }
                } else if op is LoopEnd {
                    if st.stack.len() > 0 {
                        lemma_scan_char_loop_end_wf(st, c, i);
                    }
                } else {
                    // A non-loop instruction is appended; nothing about loops
                    // or the table changes.
                    assert forall|t: int|
                        0 <= t < st2.tokens.len() && (#[trigger] st2.tokens[t]) is LoopStart
                            && !stack_has(st2.stack, t) implies loop_start_paired(
                        st2.tokens,
                        st2.jump_table,
                        t,
                    ) by {
                        assert(t < st.tokens.len());
                        assert(st.tokens[t] is LoopStart);
                        assert(loop_start_paired(st.tokens, st.jump_table, t));
                    }
                    assert forall|t: int|
                        0 <= t < st2.tokens.len() && (#[trigger] st2.tokens[t]) is LoopEnd implies
                        loop_end_paired(st2.tokens, st2.jump_table, t) && !stack_has(
                        st2.stack,
                        st2.jump_table[t] as int,
                    ) by {
                        assert(t < st.tokens.len());
                        assert(st.tokens[t] is LoopEnd);
                        assert(loop_end_paired(st.tokens, st.jump_table, t));
                    }
                }
            },
        }
    }
}

/// The loop-end case of the scan invariant: pairing the just-closed loop
/// leaves every earlier pair intact and pairs the new one.
proof fn lemma_scan_char_loop_end_wf(st: ScanState, c: char, i: nat)
    requires
        scan_wf(st),
        st.tokens.len() < u32::MAX,
        op_of_char(c) == Some(Op::LoopEnd),
        st.stack.len() > 0,
    ensures
        scan_char(st, c, i) matches Ok(st2) ==> scan_wf(st2),
{
    let st2 = scan_char(st, c, i)->Ok_0;
    let s_idx = st.stack.last().0 as int;
    let cur = st.tokens.len() as int;
    let jt2 = st2.jump_table;
    assert(0 <= s_idx < cur);
    assert(st.tokens[s_idx] is LoopStart);
    assert(jt2.len() == cur + 1);
    // Entries other than the two just written are carried over from the old
    // table (or are fresh zeroes never referred to).
    assert(forall|j: int|
        0 <= j < st.jump_table.len() && j != s_idx && j != cur ==> jt2[j] == st.jump_table[j]);
    // The popped entry was the stack's maximum, so it is not in the rest.
    assert(!stack_has(st2.stack, s_idx)) by {
        if stack_has(st2.stack, s_idx) {
            let k = choose|k: int| 0 <= k < st2.stack.len() && (#[trigger] st2.stack[k]).0 == s_idx;
            assert(st.stack[k].0 < st.stack[st.stack.len() - 1].0);
        }
    }
    assert forall|t: int|
        0 <= t < st2.tokens.len() && (#[trigger] st2.tokens[t]) is LoopStart && !stack_has(
            st2.stack,
            t,
        ) implies loop_start_paired(st2.tokens, jt2, t) by {
        if t == s_idx {
            assert(jt2[s_idx] == cur as u32);
            assert(jt2[cur] == s_idx as u32);
            assert(st2.tokens[cur] is LoopEnd);
        } else {
            assert(t < cur);
            assert(st.tokens[t] is LoopStart);
            assert(!stack_has(st.stack, t)) by {
                if stack_has(st.stack, t) {
                    let k = choose|k: int|
                        0 <= k < st.stack.len() && (#[trigger] st.stack[k]).0 == t;
                    assert(k < st.stack.len() - 1);
                    assert(st2.stack[k].0 == t);
                }
            }
            assert(loop_start_paired(st.tokens, st.jump_table, t));
            let p = st.jump_table[t] as int;
            // The old partner is a loop-end, so it is neither the popped
            // loop-start nor the fresh index.
            assert(st.tokens[p] is LoopEnd);
            assert(p != s_idx && p != cur);
            assert(jt2[t] == st.jump_table[t]);
            assert(jt2[p] == st.jump_table[p]);
        }
    }
    assert forall|t: int|
        0 <= t < st2.tokens.len() && (#[trigger] st2.tokens[t]) is LoopEnd implies loop_end_paired(
        st2.tokens,
        jt2,
        t,
    ) && !stack_has(st2.stack, jt2[t] as int) by {
        if t == cur {
            assert(jt2[cur] == s_idx as u32);
            assert(jt2[s_idx] == cur as u32);
            assert(st2.tokens[s_idx] is LoopStart);
        } else {
            assert(t < cur);
            assert(st.tokens[t] is LoopEnd);
            assert(loop_end_paired(st.tokens, st.jump_table, t));
            let p = st.jump_table[t] as int;
            assert(!stack_has(st.stack, p));
            assert(st.tokens[p] is LoopStart);
            // The old partner was never open, so it is not the popped entry.
            assert(p != s_idx) by {
                if p == s_idx {
                    assert(st.stack[st.stack.len() - 1].0 == s_idx);
                }
            }
            assert(p != cur);
            assert(jt2[t] == st.jump_table[t]);
            assert(jt2[p] == st.jump_table[p]);
            assert(!stack_has(st2.stack, p)) by {
                if stack_has(st2.stack, p) {
                    let k = choose|k: int|
                        0 <= k < st2.stack.len() && (#[trigger] st2.stack[k]).0 == p;
                    assert(st.stack[k].0 == p);
                }
            }
        }
    }
}

/// Grow `v` with zero entries until `index` is a valid position in it.
fn ensure_len(v: &mut Vec<u32>, index: usize)
    requires
        index < usize::MAX,
    ensures
        final(v)@ == grow_zeros(old(v)@, (index + 1) as nat),
{
    while v.len() <= index
        invariant
            index < usize::MAX,
            v@.len() >= old(v)@.len(),
            v@.len() <= index + 1 || v@ == old(v)@,
            v@ == grow_zeros(old(v)@, v@.len()),
        decreases index + 1 - v@.len(),
    {
        let ghost v1 = v@;
        v.push(0);
        proof {
            assert(v@ =~= grow_zeros(old(v)@, v@.len()));
        }
    }
    proof {
        assert(v@ =~= grow_zeros(old(v)@, (index + 1) as nat));
    }
}

/// The scan state that the translator's working vectors stand for.
pub open spec fn st_view(tokens: Seq<Op>, jump_table: Seq<u32>, stack: Seq<(usize, u32)>) -> ScanState {
    ScanState {
        tokens,
        jump_table,
        stack: stack.map_values(|p: (usize, u32)| (p.0 as nat, p.1 as nat)),
    }
}

impl IR {
    /// Translate a source string in one pass.
    ///
    /// On success the returned program holds exactly the source's
    /// instructions in order, comments skipped, and a well-formed jump table
    /// pairing each loop with its partner, sized to the instruction
    /// sequence's length with unused zero entries at non-loop indices. A `]`
    /// with no open loop fails
    /// immediately with `UnexpectedLoopEnd` at its character position; a loop
    /// still open when the scan ends fails with `UnclosedLoop` at the
    /// position of the innermost (most recently opened) unmatched `[`.
    ///
    /// Positions and jump-table entries are 32-bit, so the source may hold at
    /// most `u32::MAX` characters; callers can check with `unicode_len`.
    pub fn from_str(input: &str) -> (r: Result<IR, ParseError>)
        requires
            input@.len() <= u32::MAX,
        ensures
            match r {
                Ok(ir) => {
                    &&& translate(input@) == Ok::<_, ParseError>((ir.tokens@, ir.jump_table@))
                    &&& ir.wf()
                    &&& ir.tokens@ == ops_of(input@)
                },
                Err(e) => translate(input@) == Err::<(Seq<Op>, Seq<u32>), _>(e),
            },
    {
        let n = input.unicode_len();
        let mut tokens: Vec<Op> = Vec::new();
        let mut jump_table: Vec<u32> = Vec::new();
        let mut loop_starts: Vec<(usize, u32)> = Vec::new();
        let mut i: usize = 0;

        proof {
            assert(st_view(tokens@, jump_table@, loop_starts@) =~= ScanState::init());
        }

        while i < n
            invariant
                n == input@.len(),
                n <= u32::MAX,
                i <= n,
                tokens@.len() <= i,
                scan_wf(st_view(tokens@, jump_table@, loop_starts@)),
                scan_from(input@, 0, ScanState::init()) == scan_from(
                    input@,
                    i as nat,
                    st_view(tokens@, jump_table@, loop_starts@),
                ),
                tokens@ == ops_of(input@.take(i as int)),
            decreases n - i,
        {
            let ghost pre = st_view(tokens@, jump_table@, loop_starts@);
            let c = input.get_char(i);
            proof {
                lemma_scan_char_preserves_wf(pre, c, i as nat);
            }
            match Op::from_char(c) {
                None => {
                    proof {
                        assert(scan_char(pre, c, i as nat) == Ok::<_, ParseError>(pre));
                    }
                },
                Some(op) => {
                    match op {
                        Op::LoopStart => {
                            loop_starts.push((tokens.len(), i as u32));
                            tokens.push(op);
                            proof {
                                let post = st_view(tokens@, jump_table@, loop_starts@);
                                assert(post.stack =~= pre.stack.push((pre.tokens.len(), i as nat)));
                                assert(scan_char(pre, c, i as nat)->Ok_0 =~= post);
                            }
                        },
                        Op::LoopEnd => {
                            match loop_starts.pop() {
                                None => {
                                    proof {
                                        assert(pre.stack.len() == 0);
                                        let e = ParseError {
                                            token_pos: i as u32,
                                            kind: ParseErrorKind::UnexpectedLoopEnd,
                                        };
                                        assert(scan_char(pre, c, i as nat) == Err::<ScanState, _>(
                                            e,
                                        ));
                                        assert(translate(input@) == Err::<
                                            (Seq<Op>, Seq<u32>),
                                            _,
                                        >(e));
                                    }
                                    return Err(
                                        ParseError::new(i as u32, ParseErrorKind::UnexpectedLoopEnd),
                                    );
                                },
                                Some(entry) => {
                                    let loop_start = entry.0;
                                    let cur = tokens.len();
                                    proof {
                                        assert(pre.stack.last() == (
                                            loop_start as nat,
                                            entry.1 as nat,
                                        ));
                                        assert(pre.stack[pre.stack.len() - 1].0
                                            < pre.tokens.len());
                                    }
                                    let max_idx = if loop_start > cur {
                                        loop_start
                                    } else {
                                        cur
                                    };
                                    ensure_len(&mut jump_table, max_idx);
                                    jump_table.set(loop_start, cur as u32);
                                    jump_table.set(cur, loop_start as u32);
                                    tokens.push(op);
                                    proof {
                                        let post = st_view(tokens@, jump_table@, loop_starts@);
                                        assert(post.stack =~= pre.stack.drop_last());
                                        assert(scan_char(pre, c, i as nat)->Ok_0 =~= post);
                                    }
                                },
                            }
                        },
                        _ => {
                            tokens.push(op);
                            proof {
                                let post = st_view(tokens@, jump_table@, loop_starts@);
                                assert(post.stack =~= pre.stack);
                                assert(scan_char(pre, c, i as nat)->Ok_0 =~= post);
                            }
                        },
                    }
                },
            }
            proof {
                let post = st_view(tokens@, jump_table@, loop_starts@);
                assert(scan_char(pre, c, i as nat) == Ok::<_, ParseError>(post));
                assert(scan_from(input@, i as nat, pre) == scan_from(input@, i as nat + 1, post));
                assert(input@.take(i as int + 1).drop_last() =~= input@.take(i as int));
                assert(input@.take(i as int + 1).last() == input@[i as int]);
                assert(tokens@ == ops_of(input@.take(i as int + 1)));
            }
            i = i + 1;
        }

        proof {
            let post = st_view(tokens@, jump_table@, loop_starts@);
            assert(scan_from(input@, i as nat, post) == Ok::<_, ParseError>(post));
        }
        let ghost done = st_view(tokens@, jump_table@, loop_starts@);
        if let Some(entry) = loop_starts.pop() {
            proof {
                assert(done.stack.last() == (entry.0 as nat, entry.1 as nat));
                assert(translate(input@) == Err::<(Seq<Op>, Seq<u32>), _>(
                    ParseError { token_pos: entry.1, kind: ParseErrorKind::UnclosedLoop },
                ));
            }
            return Err(ParseError::new(entry.1, ParseErrorKind::UnclosedLoop));
        }
        proof {
            assert(done.stack.len() == 0);
            lemma_scan_wf_closed(done);
            assert(input@.take(n as int) =~= input@);
        }
        // Pad the jump table with zeroes to the instruction sequence's
        // length; the padding entries sit at non-loop indices and are never
        // read.
        if tokens.len() > 0 {
            ensure_len(&mut jump_table, tokens.len() - 1);
        }
        proof {
            assert(jump_table@ =~= grow_zeros(done.jump_table, done.tokens.len()));
        }
        Ok(IR { tokens, jump_table })
    }
}

/// A scan state that satisfies the invariant with no loops left open is,
/// after its jump table is padded to the instruction sequence's length, a
/// well-formed translated program.
pub proof fn lemma_scan_wf_closed(st: ScanState)
    requires
        scan_wf(st),
        st.stack.len() == 0,
        st.tokens.len() <= u32::MAX,
    ensures
        ir_wf(st.tokens, grow_zeros(st.jump_table, st.tokens.len())),
{
    let jt = grow_zeros(st.jump_table, st.tokens.len());
    assert(st.tokens.len() <= jt.len());
    // Padding leaves every existing entry, and with it every pairing, as it
    // was.
    assert(forall|j: int| 0 <= j < st.jump_table.len() ==> jt[j] == st.jump_table[j]);
    assert forall|t: int|
        0 <= t < st.tokens.len() && (#[trigger] st.tokens[t]) is LoopStart implies
        loop_start_paired(st.tokens, jt, t) by {
        assert(!stack_has(st.stack, t));
        assert(loop_start_paired(st.tokens, st.jump_table, t));
    }
    assert forall|t: int|
        0 <= t < st.tokens.len() && (#[trigger] st.tokens[t]) is LoopEnd implies loop_end_paired(
        st.tokens,
        jt,
        t,
    ) by {
        assert(loop_end_paired(st.tokens, st.jump_table, t));
    }
}

} // verus!
