//! Messages to the user, plain or coloured.

use vstd::prelude::*;

verus! {

/// Whether to produce plain or coloured output.
#[derive(Clone, Copy, Debug, PartialEq, Eq, Structural)]
pub enum OutputKind {
    /// Output the plain text of a message.
    Plain,
    /// Output the coloured text of a message if it has one.
    Colour,
}

/// An output message: plain text, and possibly text decorated with control codes.
pub struct OutputMessage<'a> {
    /// The plain text.
    pub plain: &'a str,
    /// The coloured text.
    pub colour: Option<&'a str>,
}

impl<'a> OutputMessage<'a> {
    /// A message with the given texts.
    pub fn new(plain: &'a str, colour: Option<&'a str>) -> (r: OutputMessage<'a>)
        ensures
            r.plain == plain,
            r.colour == colour,
    {
        OutputMessage { plain, colour }
    }

    /// A message without a coloured text.
    pub fn plain(plain: &'a str) -> (r: OutputMessage<'a>)
        ensures
            r.plain == plain,
            r.colour is None,
    {
        OutputMessage { plain, colour: None }
    }
}

/// Something that messages to the user can be printed to.
pub trait OutputService {
    /// Prints a message.
    fn println(&self, msg: &OutputMessage);

    /// Prints a message about details, if such messages are wanted.
    fn println_verbose(&self, msg: &OutputMessage);
}

/// Chooses what to print to the console.
pub struct ConsoleOutputService {
    /// Whether to print coloured texts.
    pub mode: OutputKind,
    /// Whether to print messages about details.
    pub verbose: bool,
}

impl ConsoleOutputService {
    /// A service for the given kind of output.
    pub fn new(kind: OutputKind, verbose: bool) -> (r: Self)
        ensures
            r.mode == kind,
            r.verbose == verbose,
    {
        ConsoleOutputService { mode: kind, verbose }
    }

    /// The text of a message to print.
    pub fn select<'a>(&self, msg: &OutputMessage<'a>) -> (r: &'a str)
        ensures
            r == match (self.mode, msg.colour) {
                (OutputKind::Colour, Some(text)) => text,
                _ => msg.plain,
            },
    {
        match self.mode {
            OutputKind::Plain => msg.plain,
            OutputKind::Colour => match msg.colour {
                Some(text) => text,
                None => msg.plain,
            },
        }
    }

    /// The text of a message about details to print, if such messages are wanted.
    pub fn select_verbose<'a>(&self, msg: &OutputMessage<'a>) -> (r: Option<&'a str>)
        ensures
            r == if self.verbose {
                Some(match (self.mode, msg.colour) {
                    (OutputKind::Colour, Some(text)) => text,
                    _ => msg.plain,
                })
            } else {
                None
            },
    {
        if self.verbose {
            Some(self.select(msg))
        } else {
            None
        }
    }
}

} // verus!
