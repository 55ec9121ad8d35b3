//! The event dispatcher: interprets one decoded envelope as a typed
//! command for the server to act on. It never fails; anything it cannot
//! read becomes an explicit no-op action.

use vstd::prelude::*;
use crate::json::{JsonVal, JsonValModel, view_of_elems, view_of_entries, spec_ser,
    lemma_view_elems_index, lemma_view_elems_len, to_text, chars_into_string};
use crate::str_eq;

verus! {

broadcast use vstd::std_specs::vec::group_vec_axioms;

/// What the host must do for one envelope.
pub enum Action {
    /// Start the HTTP server on this port.
    Listen { port: u16 },
    /// Complete the response under `id`: write head and body, then close.
    /// A `None` body means the payload's body element had an unusable
    /// type; the head is still written, as the superseded flow did.
    Respond { id: u64, status: u16, headers: Vec<(String, String)>, body: Option<String> },
    /// Write status and headers only, leaving the connection open.
    WriteHead { id: u64, status: u16, headers: Vec<(String, String)> },
    /// Acknowledged with no effect.
    Ack,
    /// The command is not recognized: log and continue.
    UnknownCommand,
    /// The payload does not fit the command: log and continue.
    InvalidPayload,
}

/// The model of an action.
pub enum ActionModel {
    Listen { port: u16 },
    Respond { id: u64, status: u16, headers: Seq<(Seq<char>, Seq<char>)>, body: Option<Seq<char>> },
    WriteHead { id: u64, status: u16, headers: Seq<(Seq<char>, Seq<char>)> },
    Ack,
    UnknownCommand,
    InvalidPayload,
}

/// The models of a sequence of string pairs.
pub open spec fn pair_views(s: Seq<(String, String)>) -> Seq<(Seq<char>, Seq<char>)> {
    Seq::new(s.len(), |i: int| (s[i].0@, s[i].1@))
}

impl View for Action {
    type V = ActionModel;

    open spec fn view(&self) -> ActionModel {
        match self {
            Action::Listen { port } => ActionModel::Listen { port: *port },
            Action::Respond { id, status, headers, body } => ActionModel::Respond {
                id: *id,
                status: *status,
                headers: pair_views(headers@),
                body: (match body {
                    Some(b) => Some(b@),
                    None => None,
                }),
            },
            Action::WriteHead { id, status, headers } => ActionModel::WriteHead {
                id: *id,
                status: *status,
                headers: pair_views(headers@),
            },
            Action::Ack => ActionModel::Ack,
            Action::UnknownCommand => ActionModel::UnknownCommand,
            Action::InvalidPayload => ActionModel::InvalidPayload,
        }
    }
}

/// A port payload clipped to the 16-bit range, as a float-to-integer cast
/// saturates.
pub open spec fn clamp_port(n: int) -> u16 {
    if n < 0 { 0 } else if n > 65535 { 65535 } else { n as u16 }
}

/// An id payload clipped to the unsigned 64-bit range.
pub open spec fn clamp_id(n: int) -> u64 {
    if n < 0 { 0 } else if n > u64::MAX { u64::MAX } else { n as u64 }
}

/// The string-valued members of an object, in order; members with any
/// other value are ignored. This is how caller-supplied headers are read.
pub open spec fn spec_string_entries(es: Seq<(Seq<char>, JsonValModel)>) -> Seq<(Seq<char>, Seq<char>)>
    decreases es,
{
    if es.len() == 0 {
        Seq::empty()
    } else {
        let r = spec_string_entries(es.drop_last());
        match es.last().1 {
            JsonValModel::Str(s) => r.push((es.last().0, s)),
            _ => r,
        }
    }
}

/// The body element of a completion payload: a string stands as itself,
/// an object is serialized to its JSON text, anything else is unusable.
pub open spec fn spec_body_of(v: JsonValModel) -> Option<Seq<char>> {
    match v {
        JsonValModel::Str(s) => Some(s),
        JsonValModel::Obj(_) => Some(spec_ser(v)),
        _ => None,
    }
}

/// The action for one envelope, by command name. Every envelope gets an
/// action; a shape mismatch is an explicit no-op, never a failure.
pub open spec fn spec_dispatch(cmd: Seq<char>, p: JsonValModel) -> ActionModel {
    if cmd == "http.listen"@ {
        match p {
            JsonValModel::Int(n) => ActionModel::Listen { port: clamp_port(n) },
            _ => ActionModel::InvalidPayload,
        }
    } else if cmd == "http.end"@ {
        match p {
            JsonValModel::Arr(es) => if es.len() == 4 {
                match (es[0], es[1], es[2]) {
                    (JsonValModel::Int(id), JsonValModel::Int(st), JsonValModel::Obj(hs)) =>
                        ActionModel::Respond {
                            id: clamp_id(id),
                            status: clamp_port(st),
                            headers: spec_string_entries(hs),
                            body: spec_body_of(es[3]),
                        },
                    _ => ActionModel::InvalidPayload,
                }
            } else {
                ActionModel::InvalidPayload
            },
            _ => ActionModel::InvalidPayload,
        }
    } else if cmd == "http.writeHead"@ {
        match p {
            JsonValModel::Arr(es) => if es.len() == 3 {
                match (es[0], es[1], es[2]) {
                    (JsonValModel::Int(id), JsonValModel::Int(st), JsonValModel::Obj(hs)) =>
                        ActionModel::WriteHead {
                            id: clamp_id(id),
                            status: clamp_port(st),
                            headers: spec_string_entries(hs),
                        },
                    _ => ActionModel::InvalidPayload,
                }
            } else {
                ActionModel::InvalidPayload
            },
            _ => ActionModel::InvalidPayload,
        }
    } else if cmd == "http.createServer"@ {
        ActionModel::Ack
    } else {
        ActionModel::UnknownCommand
    }
}

/// Collects the string-valued members of an object.
fn string_entries(entries: &Vec<(String, JsonVal)>) -> (out: Vec<(String, String)>)
    ensures
        pair_views(out@) == spec_string_entries(view_of_entries(entries@)),
{
    let mut out: Vec<(String, String)> = Vec::new();
    let n: usize = entries.len();
    let mut i: usize = 0;
    proof {
        assert(pair_views(out@) =~= spec_string_entries(view_of_entries(entries@.take(0))));
    }
    while i < n
        invariant
            n == entries@.len(),
            i <= n,
            pair_views(out@) == spec_string_entries(view_of_entries(entries@.take(i as int))),
        decreases n - i,
    {
        proof {
            assert(entries@.take(i + 1 as int).drop_last() =~= entries@.take(i as int));
            assert(entries@.take(i + 1 as int).last() == entries@[i as int]);
            let ve1 = view_of_entries(entries@.take(i + 1 as int));
            assert(ve1.drop_last() =~= view_of_entries(entries@.take(i as int)));
            assert(ve1.last() == (entries@[i as int].0@, entries@[i as int].1@));
        }
        match &entries[i].1 {
            JsonVal::Str(s) => {
                let ghost out0 = out@;
                out.push((entries[i].0.clone(), s.clone()));
                proof {
                    assert(pair_views(out@) =~= pair_views(out0).push(
                        (entries@[i as int].0@, entries@[i as int].1->Str_0@)));
                    assert(pair_views(out@) =~= spec_string_entries(view_of_entries(entries@.take(i + 1 as int))));
                }
            },
            _ => {
                proof {
                    assert(pair_views(out@) =~= spec_string_entries(view_of_entries(entries@.take(i + 1 as int))));
                }
            },
        }
        i = i + 1;
    }
    proof {
        assert(entries@.take(n as int) =~= entries@);
    }
    out
}

/// Interprets one decoded envelope, as `spec_dispatch` describes: every
/// command and payload gets an action, and a malformed one is a no-op.
pub fn dispatch(cmd: &str, payload: JsonVal) -> (r: Action)
    ensures
        r@ == spec_dispatch(cmd@, payload@),
{
    if str_eq(cmd, "http.listen") {
        match payload {
            JsonVal::Int(n) => {
                let port: u16 = if n < 0 {
                    0
                } else if n > 65535 {
                    65535
                } else {
                    n as u16
                };
                Action::Listen { port }
            },
            _ => Action::InvalidPayload,
        }
    } else if str_eq(cmd, "http.end") {
        match payload {
            JsonVal::Arr(es) => {
                if es.len() != 4 {
                    proof {
                        lemma_view_elems_len(es@);
                    }
                    return Action::InvalidPayload;
                }
                proof {
                    lemma_view_elems_index(es@, 0);
                    lemma_view_elems_index(es@, 1);
                    lemma_view_elems_index(es@, 2);
                    lemma_view_elems_index(es@, 3);
                }
                let id: u64 = match &es[0] {
                    JsonVal::Int(n) => if *n < 0 { 0 } else { *n as u64 },
                    _ => {
                        return Action::InvalidPayload;
                    },
                };
                let status: u16 = match &es[1] {
                    JsonVal::Int(n) => if *n < 0 { 0 } else if *n > 65535 { 65535 } else { *n as u16 },
                    _ => {
                        return Action::InvalidPayload;
                    },
                };
                let headers: Vec<(String, String)> = match &es[2] {
                    JsonVal::Obj(hs) => string_entries(hs),
                    _ => {
                        return Action::InvalidPayload;
                    },
                };
                let body: Option<String> = match &es[3] {
                    JsonVal::Str(s) => Some(s.clone()),
                    JsonVal::Obj(_) => {
                        let text = to_text(&es[3]);
                        Some(chars_into_string(&text))
                    },
                    _ => None,
                };
                Action::Respond { id, status, headers, body }
            },
            _ => Action::InvalidPayload,
        }
    } else if str_eq(cmd, "http.writeHead") {
        match payload {
            JsonVal::Arr(es) => {
                if es.len() != 3 {
                    proof {
                        lemma_view_elems_len(es@);
                    }
                    return Action::InvalidPayload;
                }
                proof {
                    lemma_view_elems_index(es@, 0);
                    lemma_view_elems_index(es@, 1);
                    lemma_view_elems_index(es@, 2);
                }
                let id: u64 = match &es[0] {
                    JsonVal::Int(n) => if *n < 0 { 0 } else { *n as u64 },
                    _ => {
                        return Action::InvalidPayload;
                    },
                };
                let status: u16 = match &es[1] {
                    JsonVal::Int(n) => if *n < 0 { 0 } else if *n > 65535 { 65535 } else { *n as u16 },
                    _ => {
                        return Action::InvalidPayload;
                    },
                };
                let headers: Vec<(String, String)> = match &es[2] {
                    JsonVal::Obj(hs) => string_entries(hs),
                    _ => {
                        return Action::InvalidPayload;
                    },
                };
                Action::WriteHead { id, status, headers }
            },
            _ => Action::InvalidPayload,
        }
    } else if str_eq(cmd, "http.createServer") {
        Action::Ack
    } else {
        Action::UnknownCommand
    }
}

} // verus!
