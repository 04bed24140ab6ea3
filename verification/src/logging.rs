//! Message contexts, severity filtering and dispatch to a sink.
use vstd::prelude::*;
use crate::chars::{decimal_text, push_decimal, push_char};
use vstd::string::StrSliceExecFns;

verus! {

broadcast use vstd::string::group_string_axioms;

/// How severe a message is, from least to most severe.
#[derive(Clone, Copy, Debug, PartialEq, Eq, Structural, PartialOrd, Ord)]
pub enum Level {
    Debug,
    Trace,
    Verbose,
    Info,
    Warning,
    Error,
    Critical,
}

impl Level {
    /// The position of the level in the order from `Debug` to `Critical`.
    pub open spec fn severity(self) -> nat {
        match self {
            Level::Debug => 0,
            Level::Trace => 1,
            Level::Verbose => 2,
            Level::Info => 3,
            Level::Warning => 4,
            Level::Error => 5,
            Level::Critical => 6,
        }
    }

    /// The level's [`Level::severity`].
    pub fn rank(self) -> (r: u8)
        ensures
            r == self.severity(),
    {
        match self {
            Level::Debug => 0,
            Level::Trace => 1,
            Level::Verbose => 2,
            Level::Info => 3,
            Level::Warning => 4,
            Level::Error => 5,
            Level::Critical => 6,
        }
    }
}

/// Severity rises strictly in the order the levels are declared: `Debug`,
/// `Trace`, `Verbose`, `Info`, `Warning`, `Error`, `Critical`; so a level
/// passes a filter exactly when it is the filter's level or declared after it.
pub proof fn lemma_severity_follows_declaration_order()
    ensures
        Level::Debug.severity() < Level::Trace.severity(),
        Level::Trace.severity() < Level::Verbose.severity(),
        Level::Verbose.severity() < Level::Info.severity(),
        Level::Info.severity() < Level::Warning.severity(),
        Level::Warning.severity() < Level::Error.severity(),
        Level::Error.severity() < Level::Critical.severity(),
        forall|a: Level, b: Level| a.severity() == b.severity() ==> a == b,
{
}

impl Default for Level {
    fn default() -> (r: Self)
        ensures
            r == Level::Info,
    {
        Level::Info
    }
}

/// Where in the source a message comes from.
#[derive(Clone, Copy, Debug, PartialEq, Eq)]
pub struct CodeContext {
    pub file: &'static str,
    pub line: u32,
    pub function: &'static str,
}

/// The final component that `Path::file_name` finds in `path`, read back as
/// text; std applies the path rules of the platform the library is built
/// for, so within one build the component depends on the path alone.
pub uninterp spec fn path_file_name(path: Seq<char>) -> Option<Seq<char>>;

/// The file name shown for a source file: the final component of its path,
/// or the whole path when it has none.
pub open spec fn file_name_of(file: Seq<char>) -> Seq<char> {
    match path_file_name(file) {
        Some(name) => name,
        None => file,
    }
}

/// The text of a source position: the file name, a colon and the line.
pub open spec fn position_text(file_name: Seq<char>, line: u32) -> Seq<char> {
    file_name + seq![':'] + decimal_text(line as nat)
}

/// Calls `Path::file_name` on `path` (taken as a `Path`) and reads the
/// component back as text with `OsStr::to_str`; the result is named by
/// `path_file_name`, and nothing more is claimed of it.
#[verifier::external_body]
fn final_path_component(path: &'static str) -> (r: Option<&'static str>)
    ensures
        match r {
            Some(name) => path_file_name(path@) == Some(name@),
            None => path_file_name(path@) is None,
        },
{
    match std::path::Path::new(path).file_name() {
        Some(name) => name.to_str(),
        None => None,
    }
}

/// The file name to show: `component` when the path has one, else the
/// whole path.
pub fn file_name_from(file: &'static str, component: Option<&'static str>) -> (r: &'static str)
    ensures
        r@ == match component {
            Some(name) => name@,
            None => file@,
        },
{
    match component {
        Some(name) => name,
        None => file,
    }
}

/// Formats a source position as `file:line`.
pub fn format_position(file_name: &str, line: u32) -> (r: String)
    ensures
        r@ == position_text(file_name@, line),
{
    let mut text = file_name.to_owned();
    push_char(&mut text, ':');
    push_decimal(&mut text, line as u64);
    assert(text@ == position_text(file_name@, line));
    text
}

impl CodeContext {
    /// The final component of the file path, or the whole path when it has
    /// none.
    pub fn file_name(self) -> (r: &'static str)
        ensures
            r@ == file_name_of(self.file@),
    {
        file_name_from(self.file, final_path_component(self.file))
    }

    /// `file:line` for a known file, `[unknown]` otherwise.
    pub fn position(self) -> (r: String)
        ensures
            self.file@.len() == 0 ==> r@ == "[unknown]"@,
            self.file@.len() > 0 ==> r@ == position_text(file_name_of(self.file@), self.line),
    {
        if self.file.unicode_len() == 0 {
            "[unknown]".to_owned()
        } else {
            let name = self.file_name();
            format_position(name, self.line)
        }
    }
}

impl Default for CodeContext {
    fn default() -> (r: Self)
        ensures
            r.file@.len() == 0,
            r.line == 0,
            r.function@.len() == 0,
    {
        proof {
            reveal_strlit("");
        }
        CodeContext { file: "", line: 0, function: "" }
    }
}

/// Everything a sink is told about a message besides its text.
#[derive(Clone, Copy, Debug, PartialEq, Eq)]
pub struct MessageContext {
    pub code: CodeContext,
    pub level: Level,
    pub flags: u16,
}

impl Default for MessageContext {
    fn default() -> (r: Self)
        ensures
            r.code.file@.len() == 0,
            r.code.line == 0,
            r.code.function@.len() == 0,
            r.level == Level::Info,
            r.flags == 0,
    {
        MessageContext { code: CodeContext::default(), level: Level::Info, flags: 0 }
    }
}

/// Passes messages at or above a minimum level to a sink.
#[derive(Clone)]
pub struct Logger<S> {
    minimum_level: Level,
    sink: S,
}

impl<S: Fn(&MessageContext, &str)> Logger<S> {
    /// The level below which messages are dropped.
    pub closed spec fn minimum_level(&self) -> Level {
        self.minimum_level
    }

    /// The sink that receives the messages.
    pub closed spec fn sink(&self) -> S {
        self.sink
    }

    /// The sink accepts every message.
    pub open spec fn well_formed(&self) -> bool {
        forall|context: &MessageContext, message: &str| #[trigger] self.sink().requires((context, message))
    }

    pub fn new(minimum_level: Level, sink: S) -> (r: Self)
        requires
            forall|context: &MessageContext, message: &str| #[trigger] sink.requires((context, message)),
        ensures
            r.minimum_level() == minimum_level,
            r.sink() == sink,
            r.well_formed(),
    {
        Logger { minimum_level, sink }
    }

    /// Whether a message with `context` passes the level filter.
    pub fn could_log(&self, context: &MessageContext) -> (r: bool)
        ensures
            r == (context.level.severity() >= self.minimum_level().severity()),
    {
        context.level.rank() >= self.minimum_level.rank()
    }

    /// Hands the message to the sink when it passes the level filter, and
    /// says whether it did.
    pub fn log(&self, context: &MessageContext, message: &str) -> (r: bool)
        requires
            self.well_formed(),
        ensures
            r == (context.level.severity() >= self.minimum_level().severity()),
            r ==> call_ensures(self.sink(), (context, message), ()),
    {
        if !self.could_log(context) {
            return false;
        }
        assert(self.sink().requires((context, message)));
        (self.sink)(context, message);
        true
    }
}

} // verus!
