//! Command bytes that open a message.
use vstd::prelude::*;

verus! {

/// The command of a message, given by its first byte.
#[derive(PartialEq, Eq, Structural, Debug, Clone, Copy)]
pub enum Cmd {
    Ping,
    FindNode,
    FindedNode,
}

/// The byte that stands for a command.
pub open spec fn cmd_byte(c: Cmd) -> u8 {
    match c {
        Cmd::Ping => 0,
        Cmd::FindNode => 1,
        Cmd::FindedNode => 2,
    }
}

impl Cmd {
    /// The command that a byte stands for, if any.
    pub fn from_u8(b: u8) -> (r: Option<Cmd>)
        ensures
            match r {
                Some(c) => cmd_byte(c) == b,
                None => b > 2,
            },
    {
        if b == 0 {
            Some(Cmd::Ping)
        } else if b == 1 {
            Some(Cmd::FindNode)
        } else if b == 2 {
            Some(Cmd::FindedNode)
        } else {
            None
        }
    }

    /// The byte that stands for this command.
    pub fn to_u8(&self) -> (r: u8)
        ensures
            r == cmd_byte(*self),
    {
        match self {
            Cmd::Ping => 0,
            Cmd::FindNode => 1,
            Cmd::FindedNode => 2,
        }
    }
}

/// Reading back the byte of a command gives that command.
pub proof fn lemma_cmd_byte_injective(a: Cmd, b: Cmd)
    ensures
        cmd_byte(a) == cmd_byte(b) ==> a == b,
{
}

} // verus!
