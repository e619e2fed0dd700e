//! An abstract model of the emitted x86-64 assembly: the instruction set the
//! generator uses, the text each instruction renders to, and a small-step
//! machine over an accumulator (`%rax`), two scratch registers and the
//! stack.
//!
//! Registers are modelled as unbounded integers, faithful to the hardware
//! whenever every intermediate value stays in machine range.  The generator's
//! correctness statement ([`crate::generator::lemma_gen_expr_correct`]) is
//! proved over [`run`].

use vstd::prelude::*;

use crate::ast::trunc_div;
use crate::text::int_text;

verus! {

/// The instructions and directives the generator emits, one per output line.
pub ghost enum Instr {
    /// `.text`
    Text,
    /// `.globl main`
    Globl,
    /// `main:`
    MainLabel,
    /// `mov $n, %rax`
    MovImm(int),
    /// `mov %rax, %rbx`
    MovRaxRbx,
    /// `mov $0, %rax`
    MovZeroRax,
    /// `sub %rbx, %rax`
    SubRbxRax,
    /// `push %rax`
    Push,
    /// `pop %rdi`
    PopRdi,
    /// `add %rdi, %rax`
    AddRdiRax,
    /// `sub %rdi, %rax`
    SubRdiRax,
    /// `imul %rdi, %rax`
    ImulRdiRax,
    /// `cdq` (sign extension before a divide; no effect on this model)
    Cdq,
    /// `idiv %rdi`
    IdivRdi,
    /// `ret`
    Ret,
    /// `#text`, an assembly comment with no executable effect
    CommentLine(Seq<char>),
}

/// The text of one emitted line.
pub open spec fn render_instr(i: Instr) -> Seq<char> {
    match i {
        Instr::Text => ".text"@,
        Instr::Globl => ".globl main"@,
        Instr::MainLabel => "main:"@,
        Instr::MovImm(n) => "    mov $"@ + int_text(n) + ", %rax"@,
        Instr::MovRaxRbx => "    mov %rax, %rbx"@,
        Instr::MovZeroRax => "    mov $0, %rax"@,
        Instr::SubRbxRax => "    sub %rbx, %rax"@,
        Instr::Push => "    push %rax"@,
        Instr::PopRdi => "    pop %rdi"@,
        Instr::AddRdiRax => "    add %rdi, %rax"@,
        Instr::SubRdiRax => "    sub %rdi, %rax"@,
        Instr::ImulRdiRax => "    imul %rdi, %rax"@,
        Instr::Cdq => "    cdq"@,
        Instr::IdivRdi => "    idiv %rdi"@,
        Instr::Ret => "    ret"@,
        Instr::CommentLine(t) => "    #"@ + t,
    }
}

/// The machine state: the accumulator, the two scratch registers the
/// generator uses, and the stack.
pub ghost struct MState {
    pub rax: int,
    pub rbx: int,
    pub rdi: int,
    pub stack: Seq<int>,
}

/// One instruction's effect.  Directives, labels, comments, `cdq` and `ret`
/// leave the state unchanged; a `pop` on an empty stack is modelled as a
/// no-op (the generated code never does it).
pub open spec fn step(i: Instr, s: MState) -> MState {
    match i {
        Instr::MovImm(n) => MState { rax: n, ..s },
        Instr::MovRaxRbx => MState { rbx: s.rax, ..s },
        Instr::MovZeroRax => MState { rax: 0, ..s },
        Instr::SubRbxRax => MState { rax: s.rax - s.rbx, ..s },
        Instr::Push => MState { stack: s.stack.push(s.rax), ..s },
        Instr::PopRdi => if s.stack.len() > 0 {
            MState { rdi: s.stack.last(), stack: s.stack.drop_last(), ..s }
        } else {
            s
        },
        Instr::AddRdiRax => MState { rax: s.rax + s.rdi, ..s },
        Instr::SubRdiRax => MState { rax: s.rax - s.rdi, ..s },
        Instr::ImulRdiRax => MState { rax: s.rax * s.rdi, ..s },
        Instr::IdivRdi => MState { rax: trunc_div(s.rax, s.rdi), ..s },
        _ => s,
    }
}

/// Runs a code sequence from a state, first instruction first.
pub open spec fn run(code: Seq<Instr>, s: MState) -> MState
    decreases code.len(),
{
    if code.len() == 0 {
        s
    } else {
        run(code.drop_first(), step(code.first(), s))
    }
}

/// Running a concatenation is running the parts in order.
pub proof fn lemma_run_app(a: Seq<Instr>, b: Seq<Instr>, s: MState)
    ensures
        run(a + b, s) == run(b, run(a, s)),
    decreases a.len(),
{
    if a.len() == 0 {
        assert(a + b =~= b);
    } else {
        assert((a + b).first() == a.first());
        assert((a + b).drop_first() =~= a.drop_first() + b);
        lemma_run_app(a.drop_first(), b, step(a.first(), s));
    }
}

/// Running a single instruction is stepping it.
pub proof fn lemma_run_one(i: Instr, s: MState)
    ensures
        run(seq![i], s) == step(i, s),
{
    assert(seq![i].drop_first() =~= Seq::<Instr>::empty());
    assert(run(Seq::<Instr>::empty(), step(i, s)) == step(i, s));
}

} // verus!
