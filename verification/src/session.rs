//! The decisions of a data session: what the server does with each command it reads.
use vstd::prelude::*;
use crate::command::{CommandResult, MyCommand, Operation};
use crate::data::{DataV, items_view, set_at};
use crate::database::{MemDatabase, run_spec, run_mutable_ok};
use crate::error::MyError;
use crate::events::{ExecutionContext, change_events, records_view};

verus! {

/// What a data session does after a command.
#[derive(Debug)]
pub enum DataAction {
    /// The session ends.
    Finish,
    /// The result is sent back and the session reads the next command.
    Reply(CommandResult),
}

/// A result as plain values: the values read and the number of keys added, or an error
/// and that number.
pub enum Reply {
    Values(Seq<DataV>, nat),
    Error(MyError, nat),
}

/// A result as plain values.
pub open spec fn reply_of(cr: CommandResult) -> Reply {
    match cr {
        CommandResult::Data(v, c) => Reply::Values(items_view(v@), c as nat),
        CommandResult::Error(e, c) => Reply::Error(e, c as nat),
    }
}

/// Where a session stands: the contents of the database and the events sent so far.
pub struct SessionState {
    pub db: Map<Seq<char>, DataV>,
    pub events: Seq<(Seq<char>, Operation, usize)>,
}

/// One command of a session, with listeners `ls`: the state after it, and what is sent
/// back (`None` for a terminate command, which ends the session). A read runs on the
/// database; a write stores its first argument at its path and reports the change to the
/// path's listeners; an error goes back as an error result that added no key.
pub open spec fn step_spec(s: SessionState, ls: Seq<(String, usize)>, c: MyCommand) -> (SessionState, Option<Reply>) {
    match c.operation_of() {
        Operation::Terminate => (s, None),
        Operation::Get => (
            s,
            Some(
                match run_spec(s.db, c) {
                    Ok(vals) => Reply::Values(vals, 0),
                    Err(e) => Reply::Error(e, 0),
                },
            ),
        ),
        Operation::Put => match (c.first_data(), c.path_bytes()) {
            (Some(d), Some(b)) => (
                SessionState {
                    db: set_at(s.db, b, 0, d@).0,
                    events: s.events + change_events(ls, c.path_of()->Some_0, Operation::Put),
                },
                Some(Reply::Values(Seq::empty(), set_at(s.db, b, 0, d@).1)),
            ),
            _ => (s, Some(Reply::Error(MyError::MalformedCommand, 0))),
        },
    }
}

/// One step of a data session: see [`step_spec`].
pub fn data_step(db: &mut MemDatabase, context: &mut ExecutionContext, comm: MyCommand) -> (r: DataAction)
    requires
        comm.operation_of() is Put ==> run_mutable_ok(old(db)@, comm),
    ensures
        final(context).listeners == old(context).listeners,
        ({
            let (s1, rep) = step_spec(
                SessionState { db: old(db)@, events: records_view(old(context).sent@) },
                old(context).listeners@,
                comm,
            );
            &&& final(db)@ == s1.db
            &&& records_view(final(context).sent@) == s1.events
            &&& match rep {
                None => r is Finish,
                Some(x) => r matches DataAction::Reply(cr) && reply_of(cr) == x,
            }
        }),
{
    if comm.is_terminate() {
        return DataAction::Finish;
    }
    let q_result = if comm.is_mutator() {
        db.run_mutable(context, comm)
    } else {
        db.run(comm)
    };
    match q_result {
        Ok(cr) => DataAction::Reply(cr),
        Err(err) => DataAction::Reply(CommandResult::new_error_result(err, 0)),
    }
}

/// What a session does with the commands `cs`: each in turn, until the first terminate
/// command, which is neither run nor answered. Gives the final state and the replies.
pub open spec fn session_spec(s: SessionState, ls: Seq<(String, usize)>, cs: Seq<MyCommand>) -> (SessionState, Seq<Reply>)
    decreases cs.len(),
{
    if cs.len() == 0 {
        (s, Seq::empty())
    } else {
        let (s1, rep) = step_spec(s, ls, cs[0]);
        match rep {
            None => (s1, Seq::empty()),
            Some(x) => {
                let (s2, rest) = session_spec(s1, ls, cs.skip(1));
                (s2, seq![x] + rest)
            },
        }
    }
}

/// The state after the first `i` commands have run, one after the other.
pub open spec fn state_after(s: SessionState, ls: Seq<(String, usize)>, cs: Seq<MyCommand>, i: int) -> SessionState
    decreases i,
{
    if i <= 0 {
        s
    } else {
        step_spec(state_after(s, ls, cs, i - 1), ls, cs[i - 1]).0
    }
}

/// `k` is the place of the first terminate command of `cs`, or its length when it has none.
pub open spec fn first_terminate(cs: Seq<MyCommand>, k: int) -> bool {
    &&& 0 <= k <= cs.len()
    &&& k < cs.len() ==> cs[k].operation_of() is Terminate
    &&& forall|j: int| 0 <= j < k ==> !(#[trigger] cs[j].operation_of() is Terminate)
}

proof fn lemma_state_after_shift(s: SessionState, ls: Seq<(String, usize)>, cs: Seq<MyCommand>, i: int)
    requires
        cs.len() > 0,
        0 <= i < cs.len(),
    ensures
        state_after(s, ls, cs, i + 1) == state_after(step_spec(s, ls, cs[0]).0, ls, cs.skip(1), i),
    decreases i,
{
    if i > 0 {
        lemma_state_after_shift(s, ls, cs, i - 1);
        assert(cs.skip(1)[i - 1] == cs[i]);
    } else {
        assert(state_after(s, ls, cs, 0) == s);
    }
}

/// A session answers its commands in order up to the first terminate command: the reply
/// to each is what that command gives on the state that the commands before it left; the
/// terminate command and those after it are neither run nor answered.
pub proof fn law_session(s: SessionState, ls: Seq<(String, usize)>, cs: Seq<MyCommand>, k: int)
    requires
        first_terminate(cs, k),
    ensures
        session_spec(s, ls, cs).1.len() == k,
        forall|i: int| 0 <= i < k ==> step_spec(state_after(s, ls, cs, i), ls, cs[i]).1 == Some(
            #[trigger] session_spec(s, ls, cs).1[i],
        ),
        session_spec(s, ls, cs).0 == state_after(s, ls, cs, k),
    decreases cs.len(),
{
    if cs.len() > 0 {
        if k == 0 {
        } else {
            let s1 = step_spec(s, ls, cs[0]).0;
            let rest = cs.skip(1);
            assert(first_terminate(rest, k - 1)) by {
                assert forall|j: int| 0 <= j < k - 1 implies !(#[trigger] rest[j].operation_of() is Terminate) by {
                    assert(rest[j] == cs[j + 1]);
                }
            }
            assert(!(cs[0].operation_of() is Terminate));
            law_session(s1, ls, rest, k - 1);
            let r = session_spec(s, ls, cs).1;
            let r1 = session_spec(s1, ls, rest).1;
            assert forall|i: int| 0 <= i < k implies step_spec(state_after(s, ls, cs, i), ls, cs[i]).1 == Some(#[trigger] r[i]) by {
                if i > 0 {
                    lemma_state_after_shift(s, ls, cs, i - 1);
                    assert(rest[i - 1] == cs[i]);
                    assert(r[i] == r1[i - 1]);
                }
            }
            lemma_state_after_shift(s, ls, cs, k - 1);
        }
    }
}

} // verus!
