//! Facts that relate several program forms.

use vstd::prelude::*;

use crate::ast;
use crate::bytecode;
use crate::common::Instruction;
use crate::peephole;
use crate::rle;
use crate::state::{agrees, Machine, Outcome};

verus! {

/// The empty program halts at once, in every form and with any budget,
/// leaving the machine (tape, pointer, input and output) as it was.
pub proof fn empty_program_halts_at_once(m: Machine, fuel: nat)
    ensures
        ast::run_seq(Seq::<ast::Statement>::empty(), m, fuel) == Outcome::Done(m),
        rle::run_seq(Seq::<rle::Statement>::empty(), m, fuel) == Outcome::Done(m),
        peephole::run_seq(Seq::<peephole::Statement>::empty(), m, fuel) == Outcome::Done(m),
        bytecode::run(Seq::<Instruction>::empty(), 0, m, fuel) == Outcome::Done(m),
{
}

/// The interpreted forms of a program end alike. Let `r`, `t` and `code` be
/// the run-length, peephole and bytecode forms of a tree `p`, related as
/// `rle::compile`, `peephole::compile` and `bytecode::compile` relate their
/// input and output. When `p` halts or fails within loop budget `fuel`, the
/// run-length and peephole forms end the same way within that budget, and
/// the bytecode does for every step budget from a bound on: all halt with
/// the same machine, or all fail with the same error and the same output.
pub proof fn all_forms_agree(
    p: Seq<ast::Statement>,
    r: Seq<rle::Statement>,
    t: Seq<peephole::Statement>,
    code: Seq<Instruction>,
    m: Machine,
    fuel: nat,
)
    requires
        m.wf(),
        rle::wf(r),
        rle::expand(r) == ast::shapes(p),
        peephole::wf(t),
        peephole::trees(t) == peephole::optimize(r),
        code == bytecode::flatten(peephole::trees(t), 0),
        code.len() <= usize::MAX,
        !(ast::run_seq(p, m, fuel) is OutOfFuel),
    ensures
        agrees(rle::run_seq(r, m, fuel), ast::run_seq(p, m, fuel)),
        agrees(peephole::run_seq(t, m, fuel), ast::run_seq(p, m, fuel)),
        forall|budget: nat|
            budget >= bytecode::cost_trees(peephole::trees(t), m, fuel) ==> agrees(
                #[trigger] bytecode::run(code, 0, m, budget),
                ast::run_seq(p, m, fuel),
            ),
{
    rle::run_length_encoding_preserves_meaning(p, r, m, fuel);
    peephole::peephole_pass_preserves_meaning(r, t, m, fuel);
    assert forall|budget: nat|
        budget >= bytecode::cost_trees(peephole::trees(t), m, fuel) implies agrees(
            #[trigger] bytecode::run(code, 0, m, budget),
            ast::run_seq(p, m, fuel),
        ) by {
        bytecode::flattening_preserves_meaning(t, code, m, fuel, budget);
    }
}

/// The converse of [`all_forms_agree`]: when the bytecode form halts or
/// fails within step budget `budget`, so does the peephole form within loop
/// budget `budget`, and the run-length and tree forms within loop budget
/// `budget + 257 + m.tape.len()`; all end alike. With [`all_forms_agree`],
/// one form runs forever exactly when the others do.
pub proof fn forms_halt_together(
    p: Seq<ast::Statement>,
    r: Seq<rle::Statement>,
    t: Seq<peephole::Statement>,
    code: Seq<Instruction>,
    m: Machine,
    budget: nat,
)
    requires
        m.wf(),
        rle::wf(r),
        rle::expand(r) == ast::shapes(p),
        peephole::wf(t),
        peephole::trees(t) == peephole::optimize(r),
        code == bytecode::flatten(peephole::trees(t), 0),
        code.len() <= usize::MAX,
        !(bytecode::run(code, 0, m, budget) is OutOfFuel),
    ensures
        bytecode::run(code, 0, m, budget) == peephole::run_seq(t, m, budget),
        agrees(rle::run_seq(r, m, budget + 257 + m.tape.len()), peephole::run_seq(t, m, budget)),
        agrees(ast::run_seq(p, m, budget + 257 + m.tape.len()), peephole::run_seq(t, m, budget)),
{
    let big = (budget + 257 + m.tape.len()) as nat;
    bytecode::flattened_halts_only_if_tree_halts(t, code, m, budget);
    peephole::peephole_halts_only_if_run_length_halts(r, t, m, budget);
    rle::run_length_encoding_preserves_meaning(p, r, m, big);
}

} // verus!
