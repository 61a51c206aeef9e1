use crate::heap::CellStatus;
use crate::heap::MemoryCell;
use crate::program::Program;
use crate::rts_cfg::ProgramRuntimeConfig;
use crate::session::LogDestination;
use crate::session::restarted;
use crate::session::ticked;
use crate::session::Session;
use crate::session::SessionView;
use vstd::prelude::*;

verus! {

/// A key of the keyboard, as far as the application tells keys apart.
#[derive(Debug, Clone, Copy, PartialEq, Eq, Structural)]
pub enum Key {
    Esc,
    Char(char),
    Other,
}

/// A key that was pressed, alone or together with the control key.
#[derive(Debug, Clone, Copy, PartialEq, Eq, Structural)]
pub struct KeyPress {
    pub key: Key,
    pub control: bool,
}

/// What a key asks of the application.
#[derive(Debug, Clone, Copy, PartialEq, Eq, Structural)]
pub enum Command {
    Quit,
    TogglePause,
    Step,
    Restart,
    Nothing,
}

/// What the key asks for: `Esc` and `q` quit, and so does `c` with the
/// control key; the blank pauses and resumes; `n` runs one instruction;
/// `r` starts over. Upper and lower case are the same.
pub open spec fn command_of(press: KeyPress) -> Command {
    match press.key {
        Key::Esc => Command::Quit,
        Key::Char(c) => if c == 'q' {
            Command::Quit
        } else if c == ' ' {
            Command::TogglePause
        } else if c == 'n' || c == 'N' {
            Command::Step
        } else if c == 'r' || c == 'R' {
            Command::Restart
        } else if (c == 'c' || c == 'C') && press.control {
            Command::Quit
        } else {
            Command::Nothing
        },
        Key::Other => Command::Nothing,
    }
}

/// The cell without what only the last step had shown: a used cell is
/// allocated again, a cell that was to be freed is free.
pub open spec fn settled(cell: MemoryCell) -> MemoryCell {
    match cell.status {
        CellStatus::ToBeFreed => MemoryCell { status: CellStatus::Free },
        CellStatus::Used => MemoryCell { status: CellStatus::Allocated },
        _ => cell,
    }
}

/// The session without what only the last step had shown in the cells.
pub open spec fn unlit(session: SessionView) -> SessionView {
    SessionView {
        heap: crate::heap::HeapView {
            cells: Seq::new(session.heap.cells.len(), |i: int| settled(session.heap.cells[i])),
            ..session.heap
        },
        ..session
    }
}

/// Takes away what only the last step had shown in the cells.
pub fn reset_highlights(memory: &mut Vec<MemoryCell>)
    ensures
        final(memory)@.len() == old(memory)@.len(),
        forall|i: int|
            0 <= i < old(memory)@.len()
                ==> #[trigger] final(memory)@[i] == settled(old(memory)@[i]),
{
    let mut i: usize = 0;
    while i < memory.len()
        invariant
            i <= memory.len(),
            memory@.len() == old(memory)@.len(),
            forall|j: int| 0 <= j < i ==> #[trigger] memory@[j] == settled(old(memory)@[j]),
            forall|j: int| i <= j < memory@.len() ==> #[trigger] memory@[j] == old(memory)@[j],
        decreases memory.len() - i,
    {
        let cell = memory[i];
        match cell.status {
            CellStatus::ToBeFreed => {
                memory.set(i, MemoryCell::new(CellStatus::Free));
            },
            CellStatus::Used => {
                memory.set(i, MemoryCell::new(CellStatus::Allocated));
            },
            _ => {},
        }
        i += 1;
    }
}

/// The application at a terminal: a session that runs by itself, or
/// step by step while it is paused.
#[derive(Debug)]
pub struct App {
    /// Whether the application is still to go on.
    pub running: bool,
    pub program_paused: bool,
    /// Whether one instruction is to run although the program is paused.
    pub eval_next_frame: bool,
    pub session: Session,
}

impl App {
    /// The machine of the application is as it should be between two instructions.
    pub open spec fn wf(&self) -> bool {
        self.session.wf()
    }

    /// An application that runs the program on a machine of the given
    /// configuration; errors are kept in the log.
    pub fn new(rts_cfg: ProgramRuntimeConfig, program: Program) -> (app: Self)
        ensures
            app.wf(),
            app.running,
            !app.program_paused,
            !app.eval_next_frame,
            app.session.program == program,
            app.session.instr_ptr == 0,
            app.session.rts_cfg == rts_cfg,
            app.session.log_dest == LogDestination::EventStream,
    {
        let mut session = Session::new(rts_cfg);
        session.program = program;
        session.log_dest = LogDestination::EventStream;
        App { running: true, program_paused: false, eval_next_frame: false, session }
    }

    /// Whether a tick runs an instruction: the program is not paused, or
    /// one instruction was asked for.
    pub open spec fn due(&self) -> bool {
        !self.program_paused || self.eval_next_frame
    }

    /// One tick of the terminal: nothing while the program is paused and
    /// no instruction is asked for; else the highlights of the last step
    /// leave the cells, the next instruction of the program runs if
    /// there is one, and no further instruction is asked for.
    pub fn tick(&mut self)
        requires
            old(self).wf(),
        ensures
            final(self).wf(),
            final(self).running == old(self).running,
            final(self).program_paused == old(self).program_paused,
            !old(self).due() ==> *final(self) == *old(self),
            old(self).due() ==> !final(self).eval_next_frame,
            old(self).due() ==> if old(self).session.instr_ptr < old(self).session.program@.len() {
                exists|result: Result<crate::program::InstrResult, crate::error::VMError>| #[trigger]
                    ticked(unlit(old(self).session@), result, final(self).session@)
            } else {
                final(self).session@ == unlit(old(self).session@)
            },
    {
        if self.program_paused && !self.eval_next_frame {
            return ;
        }
        let ghost before = self.session.vm.heap@;
        reset_highlights(&mut self.session.vm.heap.memory);
        proof {
            crate::gc::common::lemma_cells_keep_wf(before, self.session.vm.heap@);
        }
        assert(self.session@ == unlit(old(self).session@)) by {
            assert(self.session@.heap.cells =~= unlit(old(self).session@).heap.cells);
        }
        if self.session.instr_ptr < self.session.program.len() {
            let ghost before = self.session@;
            let result = self.session.tick();
            assert(ticked(before, result, self.session@));
        }
        self.eval_next_frame = false;
    }

    /// What the key for pausing would do now: run a paused program,
    /// pause a running one.
    pub fn pause_label(&self) -> (text: String)
        ensures
            text@ == if self.program_paused {
                "Run"@
            } else {
                "Pause"@
            },
    {
        if self.program_paused {
            "Run".to_owned()
        } else {
            "Pause".to_owned()
        }
    }

    /// The entries of the log that a list of `height` rows shows, each
    /// as one line, the last entry first.
    pub fn event_lines(&self, height: u16) -> (lines: Vec<String>)
        ensures
            lines@.len() == fitting(self.session@.logs.len(), height),
            forall|k: int|
                0 <= k < lines@.len() ==> (#[trigger] lines@[k])@ == self.session@.logs[
                    self.session@.logs.len() - 1 - k
                ].line_spec(),
    {
        let mut lines: Vec<String> = Vec::new();
        if height < 2 {
            return lines;
        }
        let room: usize = (height - 2) as usize;
        let entries: usize = self.session.logs.len();
        let mut k: usize = 0;
        while k < entries && k < room
            invariant
                entries == self.session.logs@.len(),
                room == height - 2,
                k <= entries,
                k <= room,
                lines@.len() == k,
                forall|j: int|
                    0 <= j < k ==> (#[trigger] lines@[j])@ == self.session.logs@[entries - 1
                        - j]@.line_spec(),
            decreases entries - k,
        {
            lines.push(self.session.logs[entries - 1 - k].line());
            k += 1;
        }
        lines
    }

    /// The application is to end.
    pub fn quit(&mut self)
        ensures
            !final(self).running,
            final(self).program_paused == old(self).program_paused,
            final(self).eval_next_frame == old(self).eval_next_frame,
            final(self).session == old(self).session,
    {
        self.running = false;
    }

    /// Starts the program over, as `Session::restart` does.
    pub fn restart(&mut self)
        ensures
            final(self).wf(),
            restarted(old(self).session@, final(self).session@),
            final(self).running == old(self).running,
            final(self).program_paused == old(self).program_paused,
            final(self).eval_next_frame == old(self).eval_next_frame,
    {
        self.session.restart();
    }
}

/// How many entries of a log of `entries` entries a list of `height`
/// rows shows: two of its rows are its border.
pub open spec fn fitting(entries: nat, height: u16) -> nat {
    if height < 2 {
        0
    } else if entries <= height - 2 {
        entries
    } else {
        (height - 2) as nat
    }
}

/// `after` is the application `before` once it has done what the
/// command asks: it ends, it pauses or goes on, it is to run one
/// instruction if it is paused, or it starts its program over.
pub open spec fn obeyed(before: App, command: Command, after: App) -> bool {
    match command {
        Command::Quit => after == (App { running: false, ..before }),
        Command::TogglePause => after == (App { program_paused: !before.program_paused, ..before }),
        Command::Step => after == (App {
            eval_next_frame: before.eval_next_frame || before.program_paused,
            ..before
        }),
        Command::Restart => {
            &&& after.wf()
            &&& restarted(before.session@, after.session@)
            &&& after.running == before.running
            &&& after.program_paused == before.program_paused
            &&& after.eval_next_frame == before.eval_next_frame
        },
        Command::Nothing => after == before,
    }
}

/// Does what the key asks for.
pub fn handle_key_events(key_event: KeyPress, app: &mut App)
    ensures
        obeyed(*old(app), command_of(key_event), *final(app)),
{
    match key_event.key {
        Key::Esc => {
            app.quit();
        },
        Key::Char(c) => {
            if c == 'q' {
                app.quit();
            } else if c == ' ' {
                app.program_paused = !app.program_paused;
            } else if c == 'n' || c == 'N' {
                if app.program_paused {
                    app.eval_next_frame = true;
                }
            } else if c == 'r' || c == 'R' {
                app.restart();
            } else if (c == 'c' || c == 'C') && key_event.control {
                app.quit();
            }
        },
        Key::Other => {},
    }
}

} // verus!
