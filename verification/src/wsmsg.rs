use crate::gc::GCType;
use crate::heap::MemoryCell;
use crate::log::Log;
use crate::program::InstrResult;
use vstd::prelude::*;

verus! {

/// What a client asks of a session.
#[derive(Debug, Clone, Copy, PartialEq, Eq, Structural)]
pub enum WSMessageRequestType {
    Tick,
    Reset,
    LoadProgram,
}

/// A request of a client.
#[derive(Debug)]
pub struct WSMessageRequest {
    pub msg_type: WSMessageRequestType,
    pub pause_on_return: Option<bool>,
    pub program_name: Option<String>,
}

/// The figures of a session that a client shows beside the heap.
#[derive(Debug, Clone, Copy, PartialEq, Eq, Structural)]
pub struct InfoBlockData {
    pub gc_type: GCType,
    pub alignment: usize,
    pub heap_size: usize,
    pub allocd_objects: usize,
    pub free_memory: usize,
}

/// An answer to a client.
#[derive(Debug)]
pub enum WSMessageResponse {
    /// An instruction has run.
    Tick {
        memory: Vec<MemoryCell>,
        log_entry: Option<Log>,
        pause_on_return: Option<bool>,
        instr_result: Option<InstrResult>,
        info_block: InfoBlockData,
    },
    /// The program has come to its end.
    Halt,
}

impl WSMessageResponse {
    /// The name of the kind of this answer, as a client reads it.
    pub open spec fn msg_type_spec(&self) -> Seq<char> {
        match self {
            WSMessageResponse::Tick { .. } => "TICK"@,
            WSMessageResponse::Halt => "HALT"@,
        }
    }

    /// The name of the kind of this answer, as a client reads it.
    pub fn msg_type(&self) -> (text: String)
        ensures
            text@ == self.msg_type_spec(),
    {
        match self {
            WSMessageResponse::Tick { .. } => "TICK".to_owned(),
            WSMessageResponse::Halt => "HALT".to_owned(),
        }
    }

    /// The answer to a tick that ran an instruction.
    pub fn new_tick(
        memory: Vec<MemoryCell>,
        log_entry: Option<Log>,
        pause_on_return: Option<bool>,
        instr_result: Option<InstrResult>,
        info_block: InfoBlockData,
    ) -> (response: Self)
        ensures
            response == (WSMessageResponse::Tick {
                memory,
                log_entry,
                pause_on_return,
                instr_result,
                info_block,
            }),
    {
        WSMessageResponse::Tick { memory, log_entry, pause_on_return, instr_result, info_block }
    }

    /// The answer to a tick at the end of the program.
    pub fn halt() -> (response: Self)
        ensures
            response == WSMessageResponse::Halt,
    {
        WSMessageResponse::Halt
    }
}

} // verus!
