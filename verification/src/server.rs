use crate::error::VMError;
use crate::free_list::total;
use crate::gc::GCType;
use crate::heap::fresh;
use crate::heap::MemoryCell;
use crate::log::Log;
use crate::program::InstrResult;
use crate::rts_cfg::ProgramRuntimeConfig;
use crate::rts_cfg::ALIGNMENT;
use crate::rts_cfg::HEAP_SIZE;
use crate::session::restarted;
use crate::session::ticked;
use crate::session::Session;
use crate::session::SessionView;
use crate::wsmsg::InfoBlockData;
use crate::wsmsg::WSMessageRequest;
use crate::wsmsg::WSMessageRequestType;
use crate::wsmsg::WSMessageResponse;
use vstd::prelude::*;

verus! {

/// The dialogue of a session with one client.
#[derive(Debug)]
pub struct Connection {
    pub session: Session,
    /// The client has been told that the program is at its end.
    pub already_said_halt: bool,
}

/// A dialogue as a mathematical value.
pub struct ConnectionView {
    pub session: SessionView,
    pub already_said_halt: bool,
}

impl View for Connection {
    type V = ConnectionView;

    open spec fn view(&self) -> ConnectionView {
        ConnectionView { session: self.session@, already_said_halt: self.already_said_halt }
    }
}

/// What is to be done about a request once the dialogue has taken it.
#[derive(Debug)]
pub enum Action {
    /// Read the program that the client names, or the one that the
    /// surroundings name, and hand it to the session.
    Load { program_name: Option<String> },
    /// Send the answer to the client.
    Send(WSMessageResponse),
    /// The instruction failed with this error: nothing is sent.
    Failed(VMError),
    /// Nothing is sent.
    Nothing,
}

/// The figures of a session.
pub open spec fn info_of(session: SessionView) -> InfoBlockData {
    InfoBlockData {
        gc_type: session.rts_cfg.gc_ty,
        alignment: session.rts_cfg.alignment,
        heap_size: session.rts_cfg.heap_size,
        allocd_objects: session.heap.objects.len() as usize,
        free_memory: total(session.heap.free) as usize,
    }
}

/// `entry` is the last entry of the log, if the log has one.
pub open spec fn last_of(logs: Seq<crate::log::LogView>, entry: Option<Log>) -> bool {
    match entry {
        Some(log) => logs.len() > 0 && log@ == logs.last(),
        None => logs.len() == 0,
    }
}

/// `response` tells of the instruction that gave `given` and left the
/// session `after`: the cells, the last log entry, what the instruction
/// gave, the figures of the session, and the client's own wish to pause.
pub open spec fn tells(
    after: SessionView,
    pause: Option<bool>,
    given: InstrResult,
    response: WSMessageResponse,
) -> bool {
    response matches WSMessageResponse::Tick {
        memory,
        log_entry,
        pause_on_return,
        instr_result,
        info_block,
    } && memory@ == after.heap.cells && last_of(after.logs, log_entry) && pause_on_return == pause
        && instr_result == Some(given) && info_block == info_of(after)
}

/// `action` answers a request to run the next instruction, and `after`
/// is the session `before` once it has run: an answer that tells of the
/// instruction where it succeeded, its error where it failed.
pub open spec fn stepped_on(
    before: SessionView,
    pause: Option<bool>,
    action: Action,
    after: SessionView,
) -> bool {
    match action {
        Action::Send(response) => match response {
            WSMessageResponse::Tick { instr_result: Some(given), .. } => ticked(
                before,
                Ok(given),
                after,
            ) && tells(after, pause, given, response),
            _ => false,
        },
        Action::Failed(e) => ticked(before, Err(e), after),
        _ => false,
    }
}

/// `action` and `after` are what the dialogue `before` makes of a request.
///
/// A request for a program changes nothing: the program is to be read.
/// A request to start over restarts the session, and the client may be
/// told of the end of the program once more. A request to run the next
/// instruction is ignored once the client has been told of the end; at
/// the end of the program the client is told so; else the instruction
/// runs.
pub open spec fn handled(
    before: ConnectionView,
    request: WSMessageRequest,
    action: Action,
    after: ConnectionView,
) -> bool {
    match request.msg_type {
        WSMessageRequestType::LoadProgram => after == before && action == (Action::Load {
            program_name: request.program_name,
        }),
        WSMessageRequestType::Reset => !after.already_said_halt && restarted(
            before.session,
            after.session,
        ) && action is Nothing,
        WSMessageRequestType::Tick => if before.already_said_halt {
            after == before && action is Nothing
        } else if before.session.instr_ptr == before.session.program.len() {
            after == (ConnectionView { already_said_halt: true, ..before }) && action
                == Action::Send(WSMessageResponse::Halt)
        } else {
            !after.already_said_halt && stepped_on(
                before.session,
                request.pause_on_return,
                action,
                after.session,
            )
        },
    }
}

/// A copy of the cells.
fn copy_of(cells: &Vec<MemoryCell>) -> (copy: Vec<MemoryCell>)
    ensures
        copy@ == cells@,
{
    let mut copy: Vec<MemoryCell> = Vec::new();
    let mut i: usize = 0;
    while i < cells.len()
        invariant
            i <= cells@.len(),
            copy@ == cells@.take(i as int),
        decreases cells@.len() - i,
    {
        copy.push(cells[i]);
        proof {
            assert(copy@ =~= cells@.take(i + 1));
        }
        i += 1;
    }
    proof {
        assert(copy@ =~= cells@);
    }
    copy
}

impl Connection {
    /// The dialogue begins: a session as it is by default, and a client
    /// that has been told nothing yet.
    pub fn new() -> (connection: Self)
        ensures
            connection.session.wf(),
            !connection.already_said_halt,
            connection.session@.program.len() == 0,
            connection.session@.logs.len() == 0,
            connection.session@.instr_ptr == 0,
            connection.session@.rts_cfg == (ProgramRuntimeConfig {
                heap_size: HEAP_SIZE,
                alignment: ALIGNMENT,
                gc_ty: GCType::MarkSweep,
            }),
            connection.session@.heap == fresh(HEAP_SIZE, ALIGNMENT),
    {
        Connection {
            session: Session::new(ProgramRuntimeConfig::default()),
            already_said_halt: false,
        }
    }

    /// Takes a request of the client, and says what is to be done about it.
    pub fn handle(&mut self, request: WSMessageRequest) -> (action: Action)
        requires
            old(self).session.wf(),
        ensures
            final(self).session.wf(),
            handled(old(self)@, request, action, final(self)@),
    {
        let WSMessageRequest { msg_type, pause_on_return, program_name } = request;
        match msg_type {
            WSMessageRequestType::LoadProgram => Action::Load { program_name },
            WSMessageRequestType::Reset => {
                self.already_said_halt = false;
                self.session.restart();
                Action::Nothing
            },
            WSMessageRequestType::Tick => {
                if self.already_said_halt {
                    return Action::Nothing;
                }
                if self.session.instr_ptr == self.session.program.len() {
                    self.already_said_halt = true;
                    return Action::Send(WSMessageResponse::halt());
                }
                match self.session.tick() {
                    Ok(instr_result) => {
                        let entries = self.session.logs.len();
                        let last_log_entry = if entries > 0 {
                            Some(self.session.logs[entries - 1].clone())
                        } else {
                            None
                        };
                        let memory = copy_of(&self.session.vm.heap.memory);
                        let info_block = self.session.make_info_block();
                        Action::Send(
                            WSMessageResponse::new_tick(
                                memory,
                                last_log_entry,
                                pause_on_return,
                                Some(instr_result),
                                info_block,
                            ),
                        )
                    },
                    Err(e) => Action::Failed(e),
                }
            },
        }
    }
}

} // verus!
