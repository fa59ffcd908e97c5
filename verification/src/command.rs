//! Mapping a decoded command array onto a server behavior: the name is the
//! leading bulk string, compared case-insensitively, and the remaining
//! elements are its arguments.

use vstd::prelude::*;
use vstd::slice::slice_to_vec;

use crate::value::{RespValue, ValModel};

verus! {

/// The mathematical model of a parsed command.
#[verifier::ext_equal]
pub enum CommandModel {
    Command,
    Echo(Seq<u8>),
    Ping(Option<Seq<u8>>),
}

/// A command the server understands.
#[derive(Debug)]
pub enum Command {
    Command,
    Echo(Vec<u8>),
    Ping(Option<Vec<u8>>),
}

impl Command {
    /// The mathematical model of this command.
    pub open spec fn model(self) -> CommandModel {
        match self {
            Command::Command => CommandModel::Command,
            Command::Echo(p) => CommandModel::Echo(p@),
            Command::Ping(p) => CommandModel::Ping(match p {
                Option::None => None,
                Option::Some(v) => Some(v@),
            }),
        }
    }
}

/// Why a decoded array is not a command.
#[derive(Debug, PartialEq)]
pub enum CommandParseError {
    EmptyCommandName,
    InvalidArguments,
    WrongArgType,
    CommandDoesNotExist,
    TooManyArguments,
}

/// An ASCII letter folded to lower case; any other byte unchanged.
pub open spec fn lower_byte(b: u8) -> u8 {
    if 65 <= b <= 90 {
        (b + 32) as u8
    } else {
        b
    }
}

/// Whether two byte strings are equal up to ASCII case.
pub open spec fn ascii_eq_nocase(a: Seq<u8>, b: Seq<u8>) -> bool {
    a.len() == b.len() && forall|i: int| 0 <= i < a.len() ==> lower_byte(a[i]) == lower_byte(b[i])
}

/// The bytes of the name `ping`.
pub open spec fn name_ping() -> Seq<u8> {
    seq![112u8, 105u8, 110u8, 103u8]
}

/// The bytes of the name `echo`.
pub open spec fn name_echo() -> Seq<u8> {
    seq![101u8, 99u8, 104u8, 111u8]
}

/// The bytes of the name `command`.
pub open spec fn name_command() -> Seq<u8> {
    seq![99u8, 111u8, 109u8, 109u8, 97u8, 110u8, 100u8]
}

/// What a decoded array means as a command: the name is its leading bulk
/// string, case-insensitive; each failure names the first rule violated.
pub open spec fn command_spec(vs: Seq<ValModel>) -> Result<CommandModel, CommandParseError> {
    if vs.len() == 0 {
        Err(CommandParseError::EmptyCommandName)
    } else {
        match vs[0] {
            ValModel::BulkString(name) => {
                if ascii_eq_nocase(name, name_ping()) {
                    if vs.len() > 2 {
                        Err(CommandParseError::TooManyArguments)
                    } else if vs.len() == 1 {
                        Ok(CommandModel::Ping(None))
                    } else {
                        match vs[1] {
                            ValModel::BulkString(arg) => Ok(CommandModel::Ping(Some(arg))),
                            _ => Err(CommandParseError::WrongArgType),
                        }
                    }
                } else if ascii_eq_nocase(name, name_echo()) {
                    if vs.len() != 2 {
                        Err(CommandParseError::InvalidArguments)
                    } else {
                        match vs[1] {
                            ValModel::BulkString(arg) => Ok(CommandModel::Echo(arg)),
                            _ => Err(CommandParseError::WrongArgType),
                        }
                    }
                } else if ascii_eq_nocase(name, name_command()) {
                    Ok(CommandModel::Command)
                } else {
                    Err(CommandParseError::CommandDoesNotExist)
                }
            },
            _ => Err(CommandParseError::WrongArgType),
        }
    }
}

/// Decides equality of two byte strings up to ASCII case.
fn bytes_eq_nocase(a: &[u8], b: &[u8]) -> (r: bool)
    ensures
        r == ascii_eq_nocase(a@, b@),
{
    let n = a.len();
    if n != b.len() {
        return false;
    }
    let mut i: usize = 0;
    loop
        invariant
            0 <= i <= n,
            n == a@.len() == b@.len(),
            forall|k: int| 0 <= k < i ==> lower_byte(a@[k]) == lower_byte(b@[k]),
        decreases n - i,
    {
        if i >= n {
            return true;
        }
        let x = a[i];
        let y = b[i];
        let lx = if 65 <= x && x <= 90 {
            x + 32
        } else {
            x
        };
        let ly = if 65 <= y && y <= 90 {
            y + 32
        } else {
            y
        };
        if lx != ly {
            return false;
        }
        i = i + 1;
    }
}

impl Command {
    /// Interprets a decoded array as a command.
    pub fn try_from(values: Vec<RespValue>) -> (r: Result<Command, CommandParseError>)
        ensures
            match r {
                Ok(c) => command_spec(RespValue::model_seq(values@)) == Ok::<
                    CommandModel,
                    CommandParseError,
                >(c.model()),
                Err(e) => command_spec(RespValue::model_seq(values@)) == Err::<
                    CommandModel,
                    CommandParseError,
                >(e),
            },
    {
        let ghost vs = RespValue::model_seq(values@);
        let num_args = values.len();
        if num_args < 1 {
            return Err(CommandParseError::EmptyCommandName);
        }
        proof {
            assert(vs[0] == values@[0].model());
        }
        let name = match &values[0] {
            RespValue::BulkString(name) => name,
            _ => {
                return Err(CommandParseError::WrongArgType);
            },
        };
        let ping_name: [u8; 4] = [112, 105, 110, 103];
        let echo_name: [u8; 4] = [101, 99, 104, 111];
        let command_name: [u8; 7] = [99, 111, 109, 109, 97, 110, 100];
        proof {
            assert(ping_name@ =~= name_ping());
            assert(echo_name@ =~= name_echo());
            assert(command_name@ =~= name_command());
        }
        if bytes_eq_nocase(name.as_slice(), ping_name.as_slice()) {
            if num_args > 2 {
                return Err(CommandParseError::TooManyArguments);
            }
            if num_args == 1 {
                return Ok(Command::Ping(None));
            }
            proof {
                assert(vs[1] == values@[1].model());
            }
            match &values[1] {
                RespValue::BulkString(arg) => Ok(
                    Command::Ping(Some(slice_to_vec(arg.as_slice()))),
                ),
                _ => Err(CommandParseError::WrongArgType),
            }
        } else if bytes_eq_nocase(name.as_slice(), echo_name.as_slice()) {
            if num_args != 2 {
                return Err(CommandParseError::InvalidArguments);
            }
            proof {
                assert(vs[1] == values@[1].model());
            }
            match &values[1] {
                RespValue::BulkString(arg) => Ok(Command::Echo(slice_to_vec(arg.as_slice()))),
                _ => Err(CommandParseError::WrongArgType),
            }
        } else if bytes_eq_nocase(name.as_slice(), command_name.as_slice()) {
            Ok(Command::Command)
        } else {
            Err(CommandParseError::CommandDoesNotExist)
        }
    }
}

} // verus!
