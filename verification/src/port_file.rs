//! The connection expression in a port file, and the wait for the file to
//! appear.
//!
//! Finding, reading and waiting for the file are the program's part; this
//! module decides what its text means and whether to try again.

use vstd::prelude::*;

use crate::conn_expr::ConnectionExpr;
use crate::conn_parse::{conn_of, conn_view, parse_connection_expr};
use crate::error::Error;
use crate::text::{chars_of, string_of, trim, trimmed};

verus! {

/// The connection expression that a port file holds: its text, trimmed of
/// whitespace, parsed; `path` names the file in the error.
pub fn parse_port_file(content: &str, path: &str) -> (r: Result<ConnectionExpr, Error>)
    ensures
        match conn_of(trimmed(content@)) {
            Some(v) => r matches Ok(c) && conn_view(c) == v,
            None => r matches Err(Error::CannotParsePortFile(p)) && p@ == path@,
        },
{
    let cs = chars_of(content);
    let t = string_of(trim(cs.as_slice()).as_slice());
    match parse_connection_expr(t.as_str()) {
        Ok(c) => Ok(c),
        Err(_) => Err(Error::CannotParsePortFile(string_of(chars_of(path).as_slice()))),
    }
}

/// What to do after one attempt to load the connection expression from the
/// port file.
#[derive(Debug)]
pub enum PortFileStep {
    /// The connection expression was found.
    Found(ConnectionExpr),
    /// The file is not there yet: pause and try again.
    Retry,
    /// Give up with this error.
    Fail(Error),
}

/// Decides after an attempt to load the port file.  `waiting` tells whether
/// the command line gave the file time to appear, and `past_deadline`
/// whether that time has run out.  Only a missing file is waited for: where
/// none was named and none was found, or where the named one does not
/// exist.
pub fn port_file_step(attempt: Result<ConnectionExpr, Error>, waiting: bool, past_deadline: bool) -> (r:
    PortFileStep)
    ensures
        match attempt {
            Ok(c) => r == PortFileStep::Found(c),
            Err(e) => if waiting && (e is NotSpecified || e is NotFound) {
                if past_deadline {
                    r == PortFileStep::Fail(Error::PortFileTimeout)
                } else {
                    r == PortFileStep::Retry
                }
            } else {
                r == PortFileStep::Fail(e)
            },
        },
{
    match attempt {
        Ok(c) => PortFileStep::Found(c),
        Err(e) => {
            let missing = match &e {
                Error::NotSpecified => true,
                Error::NotFound(_) => true,
                _ => false,
            };
            if waiting && missing {
                if past_deadline {
                    PortFileStep::Fail(Error::PortFileTimeout)
                } else {
                    PortFileStep::Retry
                }
            } else {
                PortFileStep::Fail(e)
            }
        },
    }
}

} // verus!
