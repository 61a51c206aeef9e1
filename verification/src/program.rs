use crate::gc::stats::GCStats;
use crate::gc::GCEvent;
use crate::object::Object;
use crate::object::Value;
use std::collections::VecDeque;
use vstd::prelude::*;

verus! {

/// A program: the instructions in the order in which they run.
pub type Program = VecDeque<Instruction>;

/// One step of a program.
#[derive(Debug)]
pub enum Instruction {
    /// Place the object in the heap, as a root if asked.
    Allocate { object: Object, is_root: bool },
    /// Read the value at the address.
    Read { addr: usize },
    /// Write the value to the address.
    Write { addr: usize, value: Value },
    /// Collect the garbage.
    GC,
}

/// What is wrong with the parts of an instruction that was written down.
#[derive(Debug, Clone, Copy, PartialEq, Eq, Structural)]
pub enum Malformed {
    /// An allocation without its object.
    NoObject,
    /// A read or a write without its address.
    NoAddr,
    /// A write without its value.
    NoValue,
    /// The kind is missing, or names no instruction.
    InvalidType,
}

/// The instruction of the kind `kind` with the parts it needs out of
/// `object`, `addr`, `value` and `is_root`; what is missing where one of
/// them is. An allocation that does not say otherwise is a root.
pub open spec fn assembled(
    kind: Option<Seq<char>>,
    object: Option<Object>,
    addr: Option<usize>,
    value: Option<Value>,
    is_root: Option<bool>,
) -> Result<Instruction, Malformed> {
    if kind == Some("Allocate"@) {
        match object {
            Some(object) => Ok(
                Instruction::Allocate {
                    object,
                    is_root: match is_root {
                        Some(root) => root,
                        None => true,
                    },
                },
            ),
            None => Err(Malformed::NoObject),
        }
    } else if kind == Some("Read"@) {
        match addr {
            Some(addr) => Ok(Instruction::Read { addr }),
            None => Err(Malformed::NoAddr),
        }
    } else if kind == Some("Write"@) {
        match (addr, value) {
            (Some(addr), Some(value)) => Ok(Instruction::Write { addr, value }),
            (None, _) => Err(Malformed::NoAddr),
            (Some(_), None) => Err(Malformed::NoValue),
        }
    } else if kind == Some("GC"@) {
        Ok(Instruction::GC)
    } else {
        Err(Malformed::InvalidType)
    }
}

/// The name of a kind, where there is one.
pub open spec fn kind_text(kind: Option<String>) -> Option<Seq<char>> {
    match kind {
        Some(name) => Some(name@),
        None => None,
    }
}

impl Instruction {
    /// The name of the kind of this instruction, as it is written down.
    pub open spec fn kind_spec(&self) -> Seq<char> {
        match self {
            Instruction::Allocate { .. } => "Allocate"@,
            Instruction::Read { .. } => "Read"@,
            Instruction::Write { .. } => "Write"@,
            Instruction::GC => "GC"@,
        }
    }

    /// The name of the kind of this instruction, as it is written down.
    pub fn kind(&self) -> (text: String)
        ensures
            text@ == self.kind_spec(),
    {
        match self {
            Instruction::Allocate { .. } => "Allocate".to_owned(),
            Instruction::Read { .. } => "Read".to_owned(),
            Instruction::Write { .. } => "Write".to_owned(),
            Instruction::GC => "GC".to_owned(),
        }
    }

    /// The instruction that was written down as a kind and its parts.
    /// Parts that the kind does not need are ignored.
    pub fn assemble(
        kind: Option<String>,
        object: Option<Object>,
        addr: Option<usize>,
        value: Option<Value>,
        is_root: Option<bool>,
    ) -> (made: Result<Instruction, Malformed>)
        ensures
            made == assembled(kind_text(kind), object, addr, value, is_root),
    {
        let name = match kind {
            Some(name) => name,
            None => { return Err(Malformed::InvalidType); },
        };
        if name == "Allocate".to_owned() {
            match object {
                Some(object) => Ok(
                    Instruction::Allocate {
                        object,
                        is_root: match is_root {
                            Some(root) => root,
                            None => true,
                        },
                    },
                ),
                None => Err(Malformed::NoObject),
            }
        } else if name == "Read".to_owned() {
            match addr {
                Some(addr) => Ok(Instruction::Read { addr }),
                None => Err(Malformed::NoAddr),
            }
        } else if name == "Write".to_owned() {
            match (addr, value) {
                (Some(addr), Some(value)) => Ok(Instruction::Write { addr, value }),
                (None, _) => Err(Malformed::NoAddr),
                (Some(_), None) => Err(Malformed::NoValue),
            }
        } else if name == "GC".to_owned() {
            Ok(Instruction::GC)
        } else {
            Err(Malformed::InvalidType)
        }
    }
}

/// An instruction is assembled again from its kind and its parts.
pub proof fn lemma_assembled(instr: Instruction)
    ensures
        assembled(
            Some(instr.kind_spec()),
            match instr {
                Instruction::Allocate { object, .. } => Some(object),
                _ => None,
            },
            match instr {
                Instruction::Read { addr } => Some(addr),
                Instruction::Write { addr, .. } => Some(addr),
                _ => None,
            },
            match instr {
                Instruction::Write { value, .. } => Some(value),
                _ => None,
            },
            match instr {
                Instruction::Allocate { is_root, .. } => Some(is_root),
                _ => None,
            },
        ) == Ok::<Instruction, Malformed>(instr),
{
    reveal_strlit("Allocate");
    reveal_strlit("Read");
    reveal_strlit("Write");
    reveal_strlit("GC");
    assert("Allocate"@.len() == 8);
    assert("Read"@.len() == 4);
    assert("Write"@.len() == 5);
    assert("GC"@.len() == 2);
}

/// What an instruction gave.
#[derive(Debug)]
pub enum InstrResult {
    /// The object lives at `addr`.
    Allocate { addr: usize, object: Object },
    /// The read at `addr` gave `value`.
    Read { addr: usize, value: Value },
    /// `value` was written to `addr`.
    Write { addr: usize, value: Value },
    /// The collection is done; `events` are its steps in their order.
    GC { stats: GCStats, events: Vec<GCEvent> },
}

/// Two instructions ask for the same.
pub open spec fn same_instruction(a: Instruction, b: Instruction) -> bool {
    match (a, b) {
        (
            Instruction::Allocate { object: o1, is_root: r1 },
            Instruction::Allocate { object: o2, is_root: r2 },
        ) => o1@ == o2@ && r1 == r2,
        (Instruction::Read { addr: a1 }, Instruction::Read { addr: a2 }) => a1 == a2,
        (
            Instruction::Write { addr: a1, value: v1 },
            Instruction::Write { addr: a2, value: v2 },
        ) => a1 == a2 && v1 == v2,
        (Instruction::GC, Instruction::GC) => true,
        _ => false,
    }
}

impl Clone for Instruction {
    fn clone(&self) -> (copy: Self)
        ensures
            same_instruction(*self, copy),
    {
        match self {
            Instruction::Allocate { object, is_root } => Instruction::Allocate {
                object: object.clone(),
                is_root: *is_root,
            },
            Instruction::Read { addr } => Instruction::Read { addr: *addr },
            Instruction::Write { addr, value } => Instruction::Write { addr: *addr, value: *value },
            Instruction::GC => Instruction::GC,
        }
    }
}

} // verus!
