//! Commands that a client sends to the database, and what it gets back.
use vstd::prelude::*;
use crate::data::{Data, DataV, items_view};
use crate::error::MyError;
use vstd::string::StringSliceAdditionalSpecFns;
use vstd::utf8::encode_utf8;

verus! {

/// What a command asks the database to do.
#[derive(Debug, PartialEq, Eq, Structural, Clone, Copy)]
pub enum Operation {
    Get,
    Put,
    Terminate,
}

impl Operation {
    /// Whether the operation changes the database.
    pub fn is_mutator(&self) -> (r: bool)
        ensures
            r == (*self is Put),
    {
        match self {
            Operation::Get => false,
            Operation::Put => true,
            Operation::Terminate => false,
        }
    }

    /// Whether the operation ends the session.
    pub fn is_terminate(&self) -> (r: bool)
        ensures
            r == (*self is Terminate),
    {
        match self {
            Operation::Terminate => true,
            _ => false,
        }
    }
}

/// An argument of a command: a value, or a nested command.
#[derive(Debug)]
pub enum CommandArg {
    Data(Data),
    Command(Box<MyCommand>),
}

impl CommandArg {
    /// The value, when the argument is one.
    pub fn data(&self) -> (r: Option<&Data>)
        ensures
            match r {
                Some(d) => *self == CommandArg::Data(*d),
                None => !(*self is Data),
            },
    {
        if let CommandArg::Data(d) = self {
            Some(d)
        } else {
            None
        }
    }

    /// The nested command, when the argument is one.
    pub fn command(&self) -> (r: Option<&MyCommand>)
        ensures
            match r {
                Some(c) => *self == CommandArg::Command(Box::new(*c)),
                None => !(*self is Command),
            },
    {
        if let CommandArg::Command(c) = self {
            Some(c)
        } else {
            None
        }
    }
}

/// A command: an operation, the path it applies to, and its arguments.
#[derive(Debug)]
pub struct MyCommand {
    op: Operation,
    args: Vec<CommandArg>,
    path: Option<String>,
}

impl MyCommand {
    pub closed spec fn operation_of(&self) -> Operation {
        self.op
    }

    pub closed spec fn args_of(&self) -> Seq<CommandArg> {
        self.args@
    }

    pub closed spec fn path_of(&self) -> Option<Seq<char>> {
        match self.path {
            Some(p) => Some(p@),
            None => None,
        }
    }

    /// The bytes of the path, when there is one.
    pub closed spec fn path_bytes(&self) -> Option<Seq<u8>> {
        match self.path {
            Some(p) => Some(encode_utf8(p@)),
            None => None,
        }
    }

    /// The value that the command carries as its first argument, if that argument is a value.
    pub open spec fn first_data(&self) -> Option<Data> {
        if self.args_of().len() > 0 && self.args_of()[0] is Data {
            Some(self.args_of()[0]->Data_0)
        } else {
            None
        }
    }

    /// Makes a command.
    pub fn new_with_vec(op: Operation, path: Option<String>, args: Vec<CommandArg>) -> (r: Self)
        ensures
            r.operation_of() == op,
            r.args_of() == args@,
            r.path_of() == match path {
                Some(p) => Some(p@),
                None => None::<Seq<char>>,
            },
    {
        MyCommand { op, path, args }
    }

    /// The path, when the command has one.
    pub fn get_path(&self) -> (r: Option<&str>)
        ensures
            match r {
                Some(p) => self.path_of() == Some(p@) && self.path_bytes() == Some(p.spec_bytes()),
                None => self.path_of() is None && self.path_bytes() is None,
            },
    {
        match &self.path {
            Some(s) => Some(s.as_str()),
            None => None,
        }
    }

    /// Whether the command changes the database.
    pub fn is_mutator(&self) -> (r: bool)
        ensures
            r == (self.operation_of() is Put),
    {
        self.op.is_mutator()
    }

    /// Whether the command ends the session.
    pub fn is_terminate(&self) -> (r: bool)
        ensures
            r == (self.operation_of() is Terminate),
    {
        self.op.is_terminate()
    }

    /// The operation of the command.
    pub fn get_operation(&self) -> (r: Operation)
        ensures
            r == self.operation_of(),
    {
        self.op
    }

    /// The arguments of the command, in order.
    pub fn get_args(&self) -> (r: &Vec<CommandArg>)
        ensures
            r@ == self.args_of(),
    {
        &self.args
    }
}

/// What running a command gave: the values it read and the number of keys it added, or an
/// error and that number.
#[derive(Debug)]
pub enum CommandResult {
    Data(Vec<Data>, usize),
    Error(MyError, usize),
}

impl CommandResult {
    /// A result that carries values.
    pub fn new_data_result(data: Vec<Data>, mod_count: usize) -> (r: Self)
        ensures
            r == CommandResult::Data(data, mod_count),
    {
        CommandResult::Data(data, mod_count)
    }

    /// A result that carries an error.
    pub fn new_error_result(err: MyError, mod_count: usize) -> (r: Self)
        ensures
            r == CommandResult::Error(err, mod_count),
    {
        CommandResult::Error(err, mod_count)
    }

    /// The number of keys that the command added.
    pub fn modified_row_count(&self) -> (r: usize)
        ensures
            r == self.mod_count_of(),
    {
        match self {
            CommandResult::Data(_, c) => *c,
            CommandResult::Error(_, c) => *c,
        }
    }

    /// The values the command read, or its error.
    pub fn results(&self) -> (r: Result<&Vec<Data>, MyError>)
        ensures
            match *self {
                CommandResult::Data(v, _) => r == Ok::<&Vec<Data>, MyError>(&v),
                CommandResult::Error(e, _) => r == Err::<&Vec<Data>, MyError>(e),
            },
    {
        match self {
            CommandResult::Data(v, _) => Ok(v),
            CommandResult::Error(e, _) => Err(*e),
        }
    }

    /// The number of keys that the command added.
    pub open spec fn mod_count_of(&self) -> nat {
        match *self {
            CommandResult::Data(_, c) => c as nat,
            CommandResult::Error(_, c) => c as nat,
        }
    }

    /// The values that the result carries, when it carries values.
    pub open spec fn values(&self) -> Option<Seq<DataV>> {
        match *self {
            CommandResult::Data(v, _) => Some(items_view(v@)),
            CommandResult::Error(_, _) => None,
        }
    }
}

} // verus!
