//! Events of the database and the commands that configure who listens to them.
use vstd::prelude::*;
use crate::command::Operation;

verus! {

/// An event: the listeners it goes to, and what it carries.
pub trait Event {
    type Content;

    /// The listeners that the event goes to.
    fn get_target(&self) -> &[usize];

    /// What the event carries.
    fn get_content(&self) -> &Self::Content;
}

/// What an event carries to its listeners.
pub trait EventContent {}

/// Who listens to which path.
pub trait EventTable {
    /// Lets `listener` hear about `path`.
    fn listen(&mut self, path: &str, listener: usize);

    /// Stops `listener` from hearing about `path`.
    fn unlisten(&mut self, path: &str, listener: usize);

    /// Stops `listener` from hearing about any path.
    fn unlisten_listener(&mut self, listener: usize);

    /// The listeners of `path`.
    fn lookup(&self, path: &str) -> Vec<usize>;
}

/// A command of an event session: start listening, or listen to a path.
pub enum EventCommand {
    Start,
    Listen(String, usize),
}

impl EventCommand {
    /// Whether the command starts the session's listening.
    pub fn is_start(&self) -> (r: bool)
        ensures
            r == (*self is Start),
    {
        if let EventCommand::Start = self {
            true
        } else {
            false
        }
    }

    /// The path of a `Listen` command.
    pub fn path(&self) -> (r: Option<&str>)
        ensures
            match *self {
                EventCommand::Listen(p, _) => r matches Some(s) && s@ == p@,
                EventCommand::Start => r is None,
            },
    {
        if let EventCommand::Listen(p, _) = self {
            Some(p.as_str())
        } else {
            None
        }
    }

    /// The listener of a `Listen` command.
    pub fn listener(&self) -> (r: Option<&usize>)
        ensures
            match *self {
                EventCommand::Listen(_, l) => r == Some(&l),
                EventCommand::Start => r is None,
            },
    {
        if let EventCommand::Listen(_, l) = self {
            Some(l)
        } else {
            None
        }
    }
}


/// An event to send: the path it is about, the operation that made it, and the listener it
/// goes to.
#[derive(Debug)]
pub struct EventRecord {
    pub path: String,
    pub op: Operation,
    pub listener: usize,
}

/// An event as plain values.
pub open spec fn record_view(r: EventRecord) -> (Seq<char>, Operation, usize) {
    (r.path@, r.op, r.listener)
}

/// Events as plain values.
pub open spec fn records_view(s: Seq<EventRecord>) -> Seq<(Seq<char>, Operation, usize)> {
    s.map_values(|r: EventRecord| record_view(r))
}

/// The listeners registered for the path `p` among the first `n` registrations, in the
/// order in which they registered.
pub open spec fn listeners_of(ls: Seq<(String, usize)>, p: Seq<char>, n: int) -> Seq<usize>
    decreases n,
{
    if n <= 0 || n > ls.len() {
        Seq::empty()
    } else if ls[n - 1].0@ == p {
        listeners_of(ls, p, n - 1).push(ls[n - 1].1)
    } else {
        listeners_of(ls, p, n - 1)
    }
}

/// The events that a change at `p` by `op` makes: one for each listener of `p`, in order.
pub open spec fn change_events(ls: Seq<(String, usize)>, p: Seq<char>, op: Operation) -> Seq<(Seq<char>, Operation, usize)> {
    listeners_of(ls, p, ls.len() as int).map_values(|id: usize| (p, op, id))
}

/// What a command runs with: who listens to which path, and the events sent so far.
#[derive(Debug)]
pub struct ExecutionContext {
    pub listeners: Vec<(String, usize)>,
    pub sent: Vec<EventRecord>,
}

impl ExecutionContext {
    /// A context with the given registrations and no event sent.
    pub fn new(listeners: Vec<(String, usize)>) -> (r: Self)
        ensures
            r.listeners == listeners,
            r.sent@.len() == 0,
    {
        ExecutionContext { listeners, sent: Vec::new() }
    }

    /// The listeners registered for `path`, in the order in which they registered.
    pub fn lookup(&self, path: &str) -> (r: Vec<usize>)
        ensures
            r@ == listeners_of(self.listeners@, path@, self.listeners@.len() as int),
    {
        let mut out: Vec<usize> = Vec::new();
        let mut i: usize = 0;
        while i < self.listeners.len()
            invariant
                i <= self.listeners@.len(),
                out@ == listeners_of(self.listeners@, path@, i as int),
            decreases self.listeners@.len() - i,
        {
            if crate::path::str_eq(self.listeners[i].0.as_str(), path) {
                out.push(self.listeners[i].1);
            }
            i = i + 1;
        }
        out
    }

    /// Sends the events of a change at `path` by `op`: one to each listener of `path`.
    pub fn notify(&mut self, path: &str, op: Operation)
        ensures
            final(self).listeners == old(self).listeners,
            records_view(final(self).sent@) == records_view(old(self).sent@) + change_events(old(self).listeners@, path@, op),
    {
        let ids = self.lookup(path);
        let ghost s0 = records_view(self.sent@);
        let mut i: usize = 0;
        while i < ids.len()
            invariant
                i <= ids@.len(),
                self.listeners == old(self).listeners,
                ids@ == listeners_of(old(self).listeners@, path@, old(self).listeners@.len() as int),
                s0 == records_view(old(self).sent@),
                records_view(self.sent@) == s0 + ids@.take(i as int).map_values(|id: usize| (path@, op, id)),
            decreases ids@.len() - i,
        {
            let ghost before = records_view(self.sent@);
            self.sent.push(EventRecord { path: path.to_owned(), op, listener: ids[i] });
            proof {
                assert(ids@.take(i + 1) =~= ids@.take(i as int).push(ids@[i as int]));
                assert(records_view(self.sent@) =~= before.push((path@, op, ids@[i as int])));
                assert(ids@.take(i + 1).map_values(|id: usize| (path@, op, id))
                    =~= ids@.take(i as int).map_values(|id: usize| (path@, op, id)).push((path@, op, ids@[i as int])));
            }
            i = i + 1;
        }
        assert(ids@.take(ids@.len() as int) =~= ids@);
    }
}

/// The place, among the registrations, of the listener that events for `target` go to:
/// the last one registered under that id.
pub open spec fn route_spec<T>(registered: Seq<(usize, T)>, target: usize, n: int) -> Option<usize>
    decreases n,
{
    if n <= 0 || n > registered.len() {
        None
    } else if registered[n - 1].0 == target {
        Some((n - 1) as usize)
    } else {
        route_spec(registered, target, n - 1)
    }
}

/// Where events for `target` go: the place of the last registration under that id.
pub fn route<T>(registered: &Vec<(usize, T)>, target: usize) -> (r: Option<usize>)
    ensures
        r == route_spec(registered@, target, registered@.len() as int),
{
    let mut n: usize = registered.len();
    while n > 0
        invariant
            n <= registered@.len(),
            route_spec(registered@, target, registered@.len() as int) == route_spec(registered@, target, n as int),
        decreases n,
    {
        if registered[n - 1].0 == target {
            return Some(n - 1);
        }
        n = n - 1;
    }
    None
}

} // verus!
