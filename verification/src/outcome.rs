//! The level at which the console shows a message that a workflow reports.
use vstd::prelude::*;
use crate::text::{chars_of, range_eq};

verus! {

/// How the console shows a reported message.
#[derive(Clone, Copy, Debug, PartialEq, Eq, Structural)]
pub enum MessageLevel {
    Info,
    Warn,
}

/// The level of a message reported under the level name `level`: a warning
/// for `warn`, information for every other name.
pub fn message_level(level: &str) -> (l: MessageLevel)
    ensures
        l == (if level@ == "warn"@ {
            MessageLevel::Warn
        } else {
            MessageLevel::Info
        }),
{
    let v = chars_of(level);
    let w = chars_of("warn");
    assert(v@.subrange(0, v@.len() as int) =~= v@);
    if range_eq(&v, 0, v.len(), &w) {
        MessageLevel::Warn
    } else {
        MessageLevel::Info
    }
}

} // verus!
