//! Instructions and labelled blocks of x86-64 assembly, and their text.

use crate::program::strs;
use vstd::prelude::*;
use vstd::string::StringExecFns;

verus! {

/// Mathematical value of an instruction.
pub struct InstV {
    pub name: Seq<char>,
    pub args: Seq<Seq<char>>,
}

/// One instruction: its mnemonic and its operands.
#[derive(Debug, PartialEq)]
pub struct Inst {
    pub name: String,
    pub args: Vec<String>,
}

impl View for Inst {
    type V = InstV;

    open spec fn view(&self) -> InstV {
        InstV { name: self.name@, args: strs(self.args@) }
    }
}

/// The texts `parts[from..]`, with `", "` between neighbours.
pub open spec fn join_from(parts: Seq<Seq<char>>, from: int) -> Seq<char>
    decreases parts.len() - from,
{
    if from < 0 || from >= parts.len() {
        Seq::empty()
    } else if from == parts.len() - 1 {
        parts[from]
    } else {
        parts[from] + ", "@ + join_from(parts, from + 1)
    }
}

/// The text of an instruction: two spaces, the mnemonic, a space, and the
/// operands separated by `", "`.
pub open spec fn inst_text(i: InstV) -> Seq<char> {
    "  "@ + i.name + " "@ + join_from(i.args, 0)
}

impl Inst {
    /// An instruction with the given mnemonic and operands.
    pub fn new(name: String, args: Vec<String>) -> (r: Inst)
        ensures
            r.name == name,
            r.args == args,
    {
        Inst { name, args }
    }

    /// The instruction as a line of assembly, without the line end.
    pub fn to_string(&self) -> (s: String)
        ensures
            s@ == inst_text(self@),
    {
        let mut s = String::from_str("  ");
        s.append(self.name.as_str());
        s.append(" ");
        let ghost head = s@;
        let ghost parts = strs(self.args@);
        let mut i: usize = 0;
        while i < self.args.len()
            invariant
                i <= self.args.len(),
                parts == strs(self.args@),
                head + join_from(parts, 0) == s@ + (if 0 < i < parts.len() {
                    ", "@
                } else {
                    Seq::<char>::empty()
                }) + join_from(parts, i as int),
            decreases self.args.len() - i,
        {
            let ghost before = s@;
            if i > 0 {
                s.append(", ");
            }
            s.append(self.args[i].as_str());
            proof {
                let sep = if 0 < i {
                    ", "@
                } else {
                    Seq::<char>::empty()
                };
                let rest = join_from(parts, i + 1);
                assert(s@ == before + sep + parts[i as int]);
                if i + 1 < parts.len() {
                    assert(before + sep + (parts[i as int] + ", "@ + rest) =~= s@ + ", "@ + rest);
                } else {
                    assert(before + sep + parts[i as int] =~= s@ + Seq::<char>::empty() + rest);
                }
            }
            i += 1;
        }
        assert(s@ + Seq::<char>::empty() + Seq::<char>::empty() =~= s@);
        s
    }
}

/// Mathematical value of a labelled block.
pub struct BBV {
    pub label: Seq<char>,
    pub insts: Seq<InstV>,
}

/// A labelled block of instructions.
#[derive(Debug, PartialEq)]
pub struct BB {
    pub label: String,
    pub insts: Vec<Inst>,
}

impl View for BB {
    type V = BBV;

    open spec fn view(&self) -> BBV {
        BBV { label: self.label@, insts: Seq::new(self.insts@.len(), |i: int| self.insts@[i]@) }
    }
}

/// One instruction as a line of assembly, line end included.
pub open spec fn inst_line(i: InstV) -> Seq<char> {
    inst_text(i) + "\n"@
}

/// A label as a line of assembly.
pub open spec fn label_line(label: Seq<char>) -> Seq<char> {
    label + ":\n"@
}

/// The lines of the instructions `insts[from..]`.
pub open spec fn inst_lines(insts: Seq<InstV>, from: int) -> Seq<char>
    decreases insts.len() - from,
{
    if from < 0 || from >= insts.len() {
        Seq::empty()
    } else {
        inst_line(insts[from]) + inst_lines(insts, from + 1)
    }
}

/// The text of a block: its label on a line, then one line per instruction.
pub open spec fn block_text(b: BBV) -> Seq<char> {
    label_line(b.label) + inst_lines(b.insts, 0)
}

impl BB {
    /// The block as assembly text.
    pub fn to_string(&self) -> (s: String)
        ensures
            s@ == block_text(self@),
    {
        let mut s = String::new();
        s.append(self.label.as_str());
        s.append(":\n");
        let ghost head = s@;
        let ghost lines = self@.insts;
        assert(head =~= label_line(self.label@));
        let mut i: usize = 0;
        while i < self.insts.len()
            invariant
                i <= self.insts.len(),
                lines == self@.insts,
                lines.len() == self.insts@.len(),
                head + inst_lines(lines, 0) == s@ + inst_lines(lines, i as int),
            decreases self.insts.len() - i,
        {
            let ghost before = s@;
            let t = self.insts[i].to_string();
            s.append(t.as_str());
            s.append("\n");
            proof {
                assert(lines[i as int] == self.insts@[i as int]@);
                assert(s@ =~= before + inst_line(lines[i as int]));
                assert(before + (inst_line(lines[i as int]) + inst_lines(lines, i + 1)) =~= s@
                    + inst_lines(lines, i + 1));
            }
            i += 1;
        }
        assert(s@ + Seq::<char>::empty() =~= s@);
        s
    }
}

} // verus!
