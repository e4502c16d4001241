use crate::error::Error;
use crate::record::Record;
use vstd::prelude::*;

verus! {

/// A message for the system log, tagged with its syslog severity.
#[allow(non_camel_case_types)]
pub enum LogMessage<'t> {
    EMERG(&'t str),
    ALERT(&'t str),
    CRIT(&'t str),
    ERR(&'t str),
    WARNING(&'t str),
    NOTICE(&'t str),
    INFO(&'t str),
    DEBUG(&'t str),
}

impl<'t> LogMessage<'t> {
    /// The syslog severity number, `EMERG` being zero.
    pub open spec fn spec_severity(self) -> u8 {
        match self {
            LogMessage::EMERG(_) => 0,
            LogMessage::ALERT(_) => 1,
            LogMessage::CRIT(_) => 2,
            LogMessage::ERR(_) => 3,
            LogMessage::WARNING(_) => 4,
            LogMessage::NOTICE(_) => 5,
            LogMessage::INFO(_) => 6,
            LogMessage::DEBUG(_) => 7,
        }
    }

    /// The message text.
    pub open spec fn spec_text(self) -> Seq<char> {
        match self {
            LogMessage::EMERG(m) => m@,
            LogMessage::ALERT(m) => m@,
            LogMessage::CRIT(m) => m@,
            LogMessage::ERR(m) => m@,
            LogMessage::WARNING(m) => m@,
            LogMessage::NOTICE(m) => m@,
            LogMessage::INFO(m) => m@,
            LogMessage::DEBUG(m) => m@,
        }
    }

    /// The syslog severity number of this message.
    pub fn severity(&self) -> (r: u8)
        ensures
            r == self.spec_severity(),
    {
        match self {
            LogMessage::EMERG(_) => 0,
            LogMessage::ALERT(_) => 1,
            LogMessage::CRIT(_) => 2,
            LogMessage::ERR(_) => 3,
            LogMessage::WARNING(_) => 4,
            LogMessage::NOTICE(_) => 5,
            LogMessage::INFO(_) => 6,
            LogMessage::DEBUG(_) => 7,
        }
    }

    /// The message text.
    pub fn text(&self) -> (r: &str)
        ensures
            r@ == self.spec_text(),
    {
        match self {
            LogMessage::EMERG(m) => m,
            LogMessage::ALERT(m) => m,
            LogMessage::CRIT(m) => m,
            LogMessage::ERR(m) => m,
            LogMessage::WARNING(m) => m,
            LogMessage::NOTICE(m) => m,
            LogMessage::INFO(m) => m,
            LogMessage::DEBUG(m) => m,
        }
    }
}

/// The port to the host's log: the journal reader and the severity-typed
/// writer. The systemd adapter lives outside the library.
pub trait LogPort {
    fn read_next(&mut self) -> Result<Record, Error>;

    fn write(&mut self, message: LogMessage) -> Result<(), Error>;
}

} // verus!
