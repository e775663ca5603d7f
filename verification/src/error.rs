//! The errors the tool reports.

use vstd::prelude::*;

verus! {

/// Everything that can make a run of the tool fail.
#[derive(Debug, Clone, PartialEq, Eq)]
pub enum Error {
    NoInput,
    NotFound(String),
    CannotReadStdIn,
    CannotReadFile(String),
    CannotWriteFile(String),
    CannotWriteStdOut,
    CannotWriteStdErr,
    CannotParsePortFile(String),
    DomainNotFound(String),
    NotSpecified,
    Unknown,
    StdInConflict,
    BadStdIn,
    BadSourceFile,
    NonUtf8TemplateArgument,
    UnnamedNonPositionalTemplateArgument,
    PortFileTimeout,
    HostKeyNotFound(String),
    RecursiveHostKeysNotSupported(String),
    UnexptectedResponse,
    CorruptedResponse,
    HostDisconnected,
    CannotSendToHost,
    CannotReceiveFromHost,
    FailedToConnectToHost,
    FailedToParseInput,
    FailedToParseResult,
    TooOldVersion,
    TooNewVersion,
}

impl Error {
    /// The message that reports the error.
    pub open spec fn spec_message(&self) -> Seq<char> {
        match self {
            Error::NoInput => "No input"@,
            Error::NotFound(p) => "file "@ + p@ + " not found"@,
            Error::CannotReadStdIn => "cannot read stdin"@,
            Error::CannotReadFile(p) => "cannot read file "@ + p@,
            Error::CannotWriteFile(p) => "cannot write file "@ + p@,
            Error::CannotWriteStdOut => "cannot write to stdout"@,
            Error::CannotWriteStdErr => "cannot write to stderr"@,
            Error::CannotParsePortFile(p) => "bad port file "@ + p@,
            Error::DomainNotFound(p) => "cannot resolve the IP address for the domain "@ + p@,
            Error::NotSpecified => "the nREPL server address not specified; try using the --port or --port-file option or ensure that there is a port file .nrepl-port in the current working directory or its ancestors"@,
            Error::Unknown => "unknown error"@,
            Error::StdInConflict => ""@,
            Error::BadStdIn => ""@,
            Error::BadSourceFile => ""@,
            Error::NonUtf8TemplateArgument => "template arguments must be utf-8"@,
            Error::UnnamedNonPositionalTemplateArgument => "non-positional template argument must be named"@,
            Error::PortFileTimeout => "timeout while waiting for port file"@,
            Error::HostKeyNotFound(p) => "host key "@ + p@ + " not found"@,
            Error::RecursiveHostKeysNotSupported(p) => "host key "@ + p@ + " refers to another host key"@,
            Error::UnexptectedResponse => "unexpected response from the nREPL server"@,
            Error::CorruptedResponse => "corrupted response from the nREPL server"@,
            Error::HostDisconnected => "the nREPL server disconnected"@,
            Error::CannotSendToHost => "cannot send to the nREPL server"@,
            Error::CannotReceiveFromHost => "cannot receive from the nREPL server"@,
            Error::FailedToConnectToHost => "cannot connect to the nREPL server"@,
            Error::FailedToParseInput => "cannot parse the input"@,
            Error::FailedToParseResult => "cannot parse the result"@,
            Error::TooOldVersion => "the tool is older than the required version"@,
            Error::TooNewVersion => "the tool is newer than the required version"@,
        }
    }

    /// The message that reports the error.
    pub fn message(&self) -> (r: String)
        ensures
            r@ == self.spec_message(),
    {
        match self {
            Error::NoInput => String::from_str("No input"),
            Error::NotFound(p) => {
                let mut m = String::from_str("file ");
                m.append(p.as_str());
                m.append(" not found");
                m
            },
            Error::CannotReadStdIn => String::from_str("cannot read stdin"),
            Error::CannotReadFile(p) => {
                let mut m = String::from_str("cannot read file ");
                m.append(p.as_str());
                m
            },
            Error::CannotWriteFile(p) => {
                let mut m = String::from_str("cannot write file ");
                m.append(p.as_str());
                m
            },
            Error::CannotWriteStdOut => String::from_str("cannot write to stdout"),
            Error::CannotWriteStdErr => String::from_str("cannot write to stderr"),
            Error::CannotParsePortFile(p) => {
                let mut m = String::from_str("bad port file ");
                m.append(p.as_str());
                m
            },
            Error::DomainNotFound(p) => {
                let mut m = String::from_str("cannot resolve the IP address for the domain ");
                m.append(p.as_str());
                m
            },
            Error::NotSpecified => String::from_str("the nREPL server address not specified; try using the --port or --port-file option or ensure that there is a port file .nrepl-port in the current working directory or its ancestors"),
            Error::Unknown => String::from_str("unknown error"),
            Error::StdInConflict => String::from_str(""),
            Error::BadStdIn => String::from_str(""),
            Error::BadSourceFile => String::from_str(""),
            Error::NonUtf8TemplateArgument => String::from_str("template arguments must be utf-8"),
            Error::UnnamedNonPositionalTemplateArgument => String::from_str("non-positional template argument must be named"),
            Error::PortFileTimeout => String::from_str("timeout while waiting for port file"),
            Error::HostKeyNotFound(p) => {
                let mut m = String::from_str("host key ");
                m.append(p.as_str());
                m.append(" not found");
                m
            },
            Error::RecursiveHostKeysNotSupported(p) => {
                let mut m = String::from_str("host key ");
                m.append(p.as_str());
                m.append(" refers to another host key");
                m
            },
            Error::UnexptectedResponse => String::from_str("unexpected response from the nREPL server"),
            Error::CorruptedResponse => String::from_str("corrupted response from the nREPL server"),
            Error::HostDisconnected => String::from_str("the nREPL server disconnected"),
            Error::CannotSendToHost => String::from_str("cannot send to the nREPL server"),
            Error::CannotReceiveFromHost => String::from_str("cannot receive from the nREPL server"),
            Error::FailedToConnectToHost => String::from_str("cannot connect to the nREPL server"),
            Error::FailedToParseInput => String::from_str("cannot parse the input"),
            Error::FailedToParseResult => String::from_str("cannot parse the result"),
            Error::TooOldVersion => String::from_str("the tool is older than the required version"),
            Error::TooNewVersion => String::from_str("the tool is newer than the required version"),
        }
    }
}

} // verus!
