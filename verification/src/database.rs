//! Running commands against tables.
use vstd::prelude::*;
use vstd::string::StringSliceAdditionalSpecFns;
use vstd::utf8::{encode_utf8_valid_utf8, is_char_boundary_start_end_of_seq};
use crate::command::{CommandResult, MyCommand};
use crate::data::{Data, DataV, MemTable, get_at, set_at, set_ok, items_view, lemma_items_view};
use crate::error::MyError;
use crate::command::Operation;
use crate::events::{ExecutionContext, change_events, records_view};

verus! {

/// What running a read command on a table with contents `t` answers.
pub open spec fn run_spec(t: Map<Seq<char>, DataV>, command: MyCommand) -> Result<Seq<DataV>, MyError> {
    match command.path_bytes() {
        None => Err(MyError::MalformedCommand),
        Some(b) => match get_at(t, b, 0) {
            Ok(d) => Ok(seq![d]),
            Err(e) => Err(e),
        },
    }
}

/// A write command can be carried out on a table with contents `t`: when it names a path
/// and a value, the path leads through tables only, and its length leaves room to count.
pub open spec fn run_mutable_ok(t: Map<Seq<char>, DataV>, command: MyCommand) -> bool {
    match command.path_bytes() {
        Some(b) => command.first_data() is Some ==> set_ok(t, b, 0) && b.len() < usize::MAX,
        None => true,
    }
}

impl MemTable {
    /// Runs a read command: looks up its path.
    pub fn run(&self, command: MyCommand) -> (r: Result<CommandResult, MyError>)
        requires
            command.operation_of() is Get,
        ensures
            match run_spec(self@, command) {
                Ok(vals) => r matches Ok(cr) && cr.values() == Some(vals)
                    && cr.mod_count_of() == 0,
                Err(e) => r == Err::<CommandResult, MyError>(e),
            },
    {
        match command.get_path() {
            None => Err(MyError::MalformedCommand),
            Some(p) => {
                proof {
                    encode_utf8_valid_utf8(p@);
                    is_char_boundary_start_end_of_seq(p.spec_bytes());
                }
                match self.get((p, 0)) {
                    Ok(data) => {
                        let mut out: Vec<Data> = Vec::new();
                        out.push(data.duplicate());
                        proof {
                            lemma_items_view(out@);
                            assert(items_view(out@) =~= seq![data@]);
                        }
                        Ok(CommandResult::new_data_result(out, 0))
                    },
                    Err(e) => Err(e),
                }
            },
        }
    }

    /// Runs a write command: stores its first argument at its path.
    pub fn run_mutable(&mut self, context: &mut ExecutionContext, command: MyCommand) -> (r: Result<CommandResult, MyError>)
        requires
            command.operation_of() is Put,
            run_mutable_ok(old(self)@, command),
        ensures
            final(context).listeners == old(context).listeners,
            match (command.first_data(), command.path_bytes()) {
                (Some(d), Some(b)) => {
                    &&& final(self)@ == set_at(old(self)@, b, 0, d@).0
                    &&& r matches Ok(cr) && cr.values() == Some(Seq::<DataV>::empty())
                        && cr.mod_count_of() == set_at(old(self)@, b, 0, d@).1
                    &&& records_view(final(context).sent@) == records_view(old(context).sent@)
                        + change_events(old(context).listeners@, command.path_of()->Some_0, Operation::Put)
                },
                _ => r == Err::<CommandResult, MyError>(MyError::MalformedCommand)
                    && final(self)@ == old(self)@ && final(context).sent@ == old(context).sent@,
            },
    {
        let args = command.get_args();
        if args.len() == 0 {
            return Err(MyError::MalformedCommand);
        }
        let data = match args[0].data() {
            Some(d) => d.duplicate(),
            None => {
                return Err(MyError::MalformedCommand);
            },
        };
        let path = match command.get_path() {
            Some(p) => p,
            None => {
                return Err(MyError::MalformedCommand);
            },
        };
        proof {
            encode_utf8_valid_utf8(path@);
            is_char_boundary_start_end_of_seq(path.spec_bytes());
        }
        let mod_count = self.set(context, (path, 0), data);
        let out: Vec<Data> = Vec::new();
        proof {
            lemma_items_view(out@);
            assert(items_view(out@) =~= Seq::<DataV>::empty());
        }
        Ok(CommandResult::new_data_result(out, mod_count))
    }
}

/// A database: the table at its root.
#[derive(Debug)]
pub struct MemDatabase {
    table: Box<MemTable>,
}

impl View for MemDatabase {
    type V = Map<Seq<char>, DataV>;

    closed spec fn view(&self) -> Map<Seq<char>, DataV> {
        self.table@
    }
}

impl MemDatabase {
    /// A database with an empty root table.
    pub fn new() -> (db: Self)
        ensures
            db@ == Map::<Seq<char>, DataV>::empty(),
    {
        MemDatabase { table: MemTable::new() }
    }

    /// The root table.
    pub fn table(&self) -> (t: &MemTable)
        ensures
            t@ == self@,
    {
        &self.table
    }

    /// Whether a write command can be carried out on the database: see `run_mutable_ok`.
    pub fn accepts(&self, command: &MyCommand) -> (r: bool)
        ensures
            r == run_mutable_ok(self@, *command),
    {
        match command.get_path() {
            None => true,
            Some(p) => {
                let args = command.get_args();
                let has_data = if args.len() > 0 {
                    match args[0].data() {
                        Some(_) => true,
                        None => false,
                    }
                } else {
                    false
                };
                if !has_data {
                    true
                } else if p.as_bytes().len() == usize::MAX {
                    false
                } else {
                    proof {
                        encode_utf8_valid_utf8(p@);
                        is_char_boundary_start_end_of_seq(p.spec_bytes());
                    }
                    self.table.can_set((p, 0))
                }
            },
        }
    }

    /// Runs a read command on the root table.
    pub fn run(&self, command: MyCommand) -> (r: Result<CommandResult, MyError>)
        requires
            command.operation_of() is Get,
        ensures
            match run_spec(self@, command) {
                Ok(vals) => r matches Ok(cr) && cr.values() == Some(vals)
                    && cr.mod_count_of() == 0,
                Err(e) => r == Err::<CommandResult, MyError>(e),
            },
    {
        self.table.run(command)
    }

    /// Runs a write command on the root table.
    pub fn run_mutable(&mut self, context: &mut ExecutionContext, command: MyCommand) -> (r: Result<CommandResult, MyError>)
        requires
            command.operation_of() is Put,
            run_mutable_ok(old(self)@, command),
        ensures
            final(context).listeners == old(context).listeners,
            match (command.first_data(), command.path_bytes()) {
                (Some(d), Some(b)) => {
                    &&& final(self)@ == set_at(old(self)@, b, 0, d@).0
                    &&& r matches Ok(cr) && cr.values() == Some(Seq::<DataV>::empty())
                        && cr.mod_count_of() == set_at(old(self)@, b, 0, d@).1
                    &&& records_view(final(context).sent@) == records_view(old(context).sent@)
                        + change_events(old(context).listeners@, command.path_of()->Some_0, Operation::Put)
                },
                _ => r == Err::<CommandResult, MyError>(MyError::MalformedCommand)
                    && final(self)@ == old(self)@ && final(context).sent@ == old(context).sent@,
            },
    {
        self.table.run_mutable(context, command)
    }
}

} // verus!
