use crate::text::decimal;
use crate::text::decimal_digits;
use crate::text::join;
use crate::text::quote;
use crate::text::quoted;
use vstd::prelude::*;

verus! {

/// How many entries a session keeps in its log.
pub const LOG_CAPACITY: usize = 16;

/// Where a log entry comes from.
#[derive(Debug, Clone, Copy, PartialEq, Eq, Structural)]
pub enum LogSource {
    GC,
    MUT,
    ALLOC,
    VM,
    ERROR,
}

/// One entry of a session's log.
#[derive(Debug)]
pub struct Log {
    pub msg: String,
    pub source: LogSource,
    /// The place in the program of the instruction that the entry is about.
    pub frame_id: Option<usize>,
}

/// A log entry as a mathematical value.
pub struct LogView {
    pub msg: Seq<char>,
    pub source: LogSource,
    pub frame_id: Option<usize>,
}

/// The place in the program as a line of a list begins with it: the
/// place and a full stop, or nothing.
pub open spec fn frame_head(frame_id: Option<usize>) -> Seq<char> {
    match frame_id {
        Some(i) => decimal_digits(i as nat) + ". "@,
        None => Seq::empty(),
    }
}

/// The place in the program as an entry shows it in full: `None`, or
/// the place in round brackets behind `Some`.
pub open spec fn frame_text(frame_id: Option<usize>) -> Seq<char> {
    match frame_id {
        Some(i) => "Some("@ + decimal_digits(i as nat) + ")"@,
        None => "None"@,
    }
}

impl LogView {
    /// The entry in full: the place in the program, the source in
    /// square brackets, and the message in double quotes.
    pub open spec fn text_spec(self) -> Seq<char> {
        "Frame ID: "@ + frame_text(self.frame_id) + " ["@ + self.source.name_spec() + "]: "@
            + quoted(self.msg)
    }

    /// The entry as one line of a list: the place in the program with a
    /// full stop, where there is one, the source in square brackets, and
    /// the message.
    pub open spec fn line_spec(self) -> Seq<char> {
        frame_head(self.frame_id) + "["@ + self.source.name_spec() + "] "@ + self.msg
    }
}

impl View for Log {
    type V = LogView;

    open spec fn view(&self) -> LogView {
        LogView { msg: self.msg@, source: self.source, frame_id: self.frame_id }
    }
}

impl Clone for Log {
    fn clone(&self) -> (copy: Self)
        ensures
            copy@ == self@,
    {
        Log { msg: self.msg.clone(), source: self.source, frame_id: self.frame_id }
    }
}

impl LogSource {
    /// The name shown for this source.
    pub open spec fn name_spec(self) -> Seq<char> {
        match self {
            LogSource::GC => "GC"@,
            LogSource::MUT => "MUT"@,
            LogSource::ALLOC => "ALLOC"@,
            LogSource::VM => "VM"@,
            LogSource::ERROR => "ERROR"@,
        }
    }

    /// The name shown for this source.
    pub fn name(&self) -> (text: String)
        ensures
            text@ == self.name_spec(),
    {
        match self {
            LogSource::GC => "GC".to_owned(),
            LogSource::MUT => "MUT".to_owned(),
            LogSource::ALLOC => "ALLOC".to_owned(),
            LogSource::VM => "VM".to_owned(),
            LogSource::ERROR => "ERROR".to_owned(),
        }
    }
}

impl Log {
    /// The entry in full: the place in the program, the source in
    /// square brackets, and the message in double quotes.
    pub fn text(&self) -> (text: String)
        ensures
            text@ == self@.text_spec(),
    {
        let place = match self.frame_id {
            Some(i) => {
                let digits = decimal(i);
                let head = join("Some(", digits.as_str());
                join(head.as_str(), ")")
            },
            None => "None".to_owned(),
        };
        let source = self.source.name();
        let shown = quote(self.msg.as_str());
        let a = join("Frame ID: ", place.as_str());
        let b = join(a.as_str(), " [");
        let c = join(b.as_str(), source.as_str());
        let d = join(c.as_str(), "]: ");
        join(d.as_str(), shown.as_str())
    }

    /// The entry as one line of a list: the place in the program with a
    /// full stop, where there is one, the source in square brackets, and
    /// the message.
    pub fn line(&self) -> (text: String)
        ensures
            text@ == self@.line_spec(),
    {
        let place = match self.frame_id {
            Some(i) => {
                let digits = decimal(i);
                join(digits.as_str(), ". ")
            },
            None => String::new(),
        };
        let source = self.source.name();
        let a = join(place.as_str(), "[");
        let b = join(a.as_str(), source.as_str());
        let c = join(b.as_str(), "] ");
        join(c.as_str(), self.msg.as_str())
    }

    /// A log entry.
    pub fn new(msg: String, source: LogSource, frame_id: Option<usize>) -> (log: Self)
        ensures
            log@ == (LogView { msg: msg@, source, frame_id }),
    {
        Log { msg, source, frame_id }
    }
}

} // verus!
