//! The textual rendering of a substrate program, for humans: one
//! instruction per line by its variant name, `If { ... }` and
//! `While { ... }` as bracketed blocks indented one tab per nesting
//! level, and comments on dedicated `// ` lines.

use vstd::prelude::*;
use vstd::string::StringExecFns;
use crate::semantics::{deep_instr, deep_instrs, instr_depth, lemma_seq_depth_element, seq_depth, SpecInstr};
use crate::stack::SmInstruction;

verus! {

/// `n` tab characters.
pub open spec fn spec_tabs(n: nat) -> Seq<char> {
    Seq::new(n, |k: int| '\t')
}

/// The exact text one instruction renders to at the given indent level.
pub open spec fn spec_render_instr(instr: SpecInstr, indent: nat) -> Seq<char>
    decreases instr, 0int,
{
    match instr {
        SpecInstr::ReadToActive => spec_tabs(indent) + "ReadToActive\n"@,
        SpecInstr::PrintActive => spec_tabs(indent) + "PrintActive\n"@,
        SpecInstr::PrintState => spec_tabs(indent) + "PrintState\n"@,
        SpecInstr::IncrActive => spec_tabs(indent) + "IncrActive\n"@,
        SpecInstr::DecrActive => spec_tabs(indent) + "DecrActive\n"@,
        SpecInstr::SaveActive => spec_tabs(indent) + "SaveActive\n"@,
        SpecInstr::Swap => spec_tabs(indent) + "Swap\n"@,
        SpecInstr::PushZero => spec_tabs(indent) + "PushZero\n"@,
        SpecInstr::PushActive => spec_tabs(indent) + "PushActive\n"@,
        SpecInstr::PopToActive => spec_tabs(indent) + "PopToActive\n"@,
        SpecInstr::ToggleErrors => spec_tabs(indent) + "ToggleErrors\n"@,
        SpecInstr::If(body) => spec_tabs(indent) + "If {\n"@ + spec_render_seq(body, indent + 1)
            + spec_tabs(indent) + "}\n"@,
        SpecInstr::While(body) => spec_tabs(indent) + "While {\n"@ + spec_render_seq(
            body,
            indent + 1,
        ) + spec_tabs(indent) + "}\n"@,
        SpecInstr::Comment(text) => spec_tabs(indent) + "// "@ + text + "\n"@,
        SpecInstr::InlineComment(inner, text) => spec_tabs(indent) + "// "@ + text + "\n"@
            + spec_render_instr(*inner, indent),
        SpecInstr::DebugPrint(text, _) => spec_tabs(indent) + "// "@ + text + "\n"@,
    }
}

/// The text a whole instruction sequence renders to.
pub open spec fn spec_render_seq(instrs: Seq<SpecInstr>, indent: nat) -> Seq<char>
    decreases instrs, 1int,
{
    if instrs.len() == 0 {
        Seq::empty()
    } else {
        spec_render_seq(instrs.drop_last(), indent) + spec_render_instr(instrs.last(), indent)
    }
}

/// Appends `n` tabs to `out`.
#[verifier::loop_isolation(false)]
fn write_tabs(out: &mut String, n: usize)
    ensures
        final(out)@ == old(out)@ + spec_tabs(n as nat),
{
    proof {
        reveal_strlit("\t");
        assert(out@ =~= out@ + spec_tabs(0));
    }
    let mut k: usize = 0;
    while k < n
        invariant
            k <= n,
            out@ == old(out)@ + spec_tabs(k as nat),
        decreases n - k,
    {
        out.append("\t");
        k = k + 1;
        proof {
            assert(out@ =~= old(out)@ + spec_tabs(k as nat));
        }
    }
}

impl SmInstruction {
    /// Appends this instruction's rendering to `out`.
    pub fn render_into(&self, out: &mut String, indent: usize)
        requires
            indent + instr_depth(deep_instr(*self)) <= usize::MAX,
        ensures
            final(out)@ == old(out)@ + spec_render_instr(deep_instr(*self), indent as nat),
        decreases *self, 0int,
    {
        write_tabs(out, indent);
        match self {
            SmInstruction::ReadToActive => out.append("ReadToActive\n"),
            SmInstruction::PrintActive => out.append("PrintActive\n"),
            SmInstruction::PrintState => out.append("PrintState\n"),
            SmInstruction::IncrActive => out.append("IncrActive\n"),
            SmInstruction::DecrActive => out.append("DecrActive\n"),
            SmInstruction::SaveActive => out.append("SaveActive\n"),
            SmInstruction::Swap => out.append("Swap\n"),
            SmInstruction::PushZero => out.append("PushZero\n"),
            SmInstruction::PushActive => out.append("PushActive\n"),
            SmInstruction::PopToActive => out.append("PopToActive\n"),
            SmInstruction::ToggleErrors => out.append("ToggleErrors\n"),
            SmInstruction::If(body) => {
                out.append("If {\n");
                render_seq_into(body, out, indent + 1);
                write_tabs(out, indent);
                out.append("}\n");
            },
            SmInstruction::While(body) => {
                out.append("While {\n");
                render_seq_into(body, out, indent + 1);
                write_tabs(out, indent);
                out.append("}\n");
            },
            SmInstruction::Comment(text) => {
                out.append("// ");
                out.append(text.as_str());
                out.append("\n");
            },
            SmInstruction::InlineComment(inner, text) => {
                out.append("// ");
                out.append(text.as_str());
                out.append("\n");
                inner.render_into(out, indent);
            },
            SmInstruction::DebugPrint(text, _) => {
                out.append("// ");
                out.append(text.as_str());
                out.append("\n");
            },
        }
        proof {
            assert(out@ =~= old(out)@ + spec_render_instr(deep_instr(*self), indent as nat));
        }
    }
}

/// Appends the rendering of every instruction in order.
#[verifier::loop_isolation(false)]
pub fn render_seq_into(instrs: &Vec<SmInstruction>, out: &mut String, indent: usize)
    requires
        indent + seq_depth(deep_instrs(instrs@)) <= usize::MAX,
    ensures
        final(out)@ == old(out)@ + spec_render_seq(deep_instrs(instrs@), indent as nat),
    decreases instrs@, 1int,
{
    let ghost ginstrs = deep_instrs(instrs@);
    proof {
        assert(ginstrs.take(0) =~= Seq::<SpecInstr>::empty());
        assert(out@ =~= out@ + spec_render_seq(ginstrs.take(0), indent as nat));
    }
    let mut k: usize = 0;
    while k < instrs.len()
        invariant
            k <= instrs@.len(),
            out@ == old(out)@ + spec_render_seq(ginstrs.take(k as int), indent as nat),
        decreases instrs@.len() - k,
    {
        proof {
            lemma_seq_depth_element(ginstrs, k as int);
        }
        instrs[k].render_into(out, indent);
        k = k + 1;
        proof {
            let taken = ginstrs.take(k as int);
            assert(taken.drop_last() =~= ginstrs.take(k as int - 1));
            assert(taken.last() == ginstrs[k as int - 1]);
            assert(out@ =~= old(out)@ + spec_render_seq(taken, indent as nat));
        }
    }
    proof {
        assert(ginstrs.take(ginstrs.len() as int) =~= ginstrs);
    }
}

} // verus!
