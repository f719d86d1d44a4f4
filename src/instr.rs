use vstd::prelude::*;

verus! {

broadcast use vstd::std_specs::vec::group_vec_axioms;

/// A compiled template node.
#[derive(Debug)]
pub enum Instruction {
    /// Literal text, emitted as it stands.
    Text(String),
    /// A dot-separated lookup path, one segment per element.
    Parameter(Vec<String>),
    /// Renders the body once per element of the collection under the
    /// second name, with the element bound to the first name.
    ForEach(String, String, Vec<Instruction>),
}

/// The mathematical form of an `Instruction`.
pub ghost enum Instr {
    Text(Seq<char>),
    Parameter(Seq<Seq<char>>),
    ForEach(Seq<char>, Seq<char>, Seq<Instr>),
}

/// The characters of each string in `v`.
pub open spec fn strings_view(v: Seq<String>) -> Seq<Seq<char>> {
    v.map_values(|x: String| x@)
}

impl Instruction {
    pub open spec fn view(&self) -> Instr
        decreases self,
    {
        match self {
            Instruction::Text(s) => Instr::Text(s@),
            Instruction::Parameter(p) => Instr::Parameter(strings_view(p@)),
            Instruction::ForEach(name, key, body) => Instr::ForEach(
                name@,
                key@,
                instrs_view(body@),
            ),
        }
    }
}

/// The mathematical form of each instruction in `v`, in order.
pub open spec fn instrs_view(v: Seq<Instruction>) -> Seq<Instr>
    decreases v,
{
    if v.len() == 0 {
        Seq::empty()
    } else {
        instrs_view(v.drop_last()).push(v.last().view())
    }
}

pub proof fn lemma_instrs_view_push(v: Seq<Instruction>, x: Instruction)
    ensures
        instrs_view(v.push(x)) == instrs_view(v).push(x.view()),
{
    assert(v.push(x).drop_last() =~= v);
}

} // verus!
