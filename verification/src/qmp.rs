use vstd::prelude::*;

verus! {

/// `std::io::Error`, carried by the I/O variants of the error types.
#[verifier::external_type_specification]
#[verifier::external_body]
pub struct ExIoError(std::io::Error);

pub enum QmpError {
    EndOfFile,
    Interrupted,
    Io(std::io::Error),
}

/// The greeting QEMU sends when a QMP connection opens.
pub struct QemuGreeting {
    pub version: QemuVersion,
    pub capabilities: Vec<String>,
}

pub struct QemuVersion {
    pub qemu: QemuVersionCode,
    pub package: String,
}

pub struct QemuVersionCode {
    pub major: u16,
    pub minor: u16,
    pub micro: u16,
}

/// An error reply of QEMU.
pub struct QemuError {
    pub class: String,
    pub desc: String,
}

/// The QMP commands that amba issues.
pub enum QmpCommand {
    QmpCapabilities,
    QueryStatus,
    Screendump { filename: String },
    Stop,
    Cont,
}

/// The command word that QMP knows a command by.
pub open spec fn command_word(c: QmpCommand) -> &'static str {
    match c {
        QmpCommand::QmpCapabilities => "qmp_capabilities",
        QmpCommand::QueryStatus => "query-status",
        QmpCommand::Screendump { .. } => "screendump",
        QmpCommand::Stop => "stop",
        QmpCommand::Cont => "cont",
    }
}

impl QmpCommand {
    /// The command word that QMP knows this command by.
    pub fn get_command(&self) -> (s: &'static str)
        ensures
            s@ == command_word(*self)@,
    {
        match self {
            Self::QmpCapabilities => "qmp_capabilities",
            Self::QueryStatus => "query-status",
            Self::Screendump { .. } => "screendump",
            Self::Stop => "stop",
            Self::Cont => "cont",
        }
    }

    /// The file name argument of the command, for those that take one.
    pub fn filename_argument(&self) -> (f: Option<&String>)
        ensures
            f == match *self {
                QmpCommand::Screendump { filename } => Some(&filename),
                _ => None,
            },
    {
        match self {
            Self::Screendump { filename } => Some(filename),
            _ => None,
        }
    }
}

} // verus!
