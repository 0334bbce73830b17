//! The envelope model, the node state, the initialization handshake and the
//! dispatch contract, with the protocol invariants stated on them: ids are
//! assigned monotonically from zero, replies correlate to the envelope they
//! answer, and the handshake must complete exactly once before dispatch.

use vstd::prelude::*;

verus! {

/// The closed set of wire payloads known to this core.  The discriminant is
/// encoded on the wire as the `type` key, in lower case with underscores,
/// flat beside the body's other fields.
#[derive(Debug, Clone)]
pub enum Payload {
    Echo { echo: String },
    EchoOk { echo: String },
    Init { node_id: String, node_ids: Vec<String> },
    InitOk,
}

/// The body of an envelope: an optional message id, an optional back
/// reference to the message being answered, and the payload.
#[derive(Debug, Clone)]
pub struct Body {
    pub msg_id: Option<usize>,
    pub in_reply_to: Option<usize>,
    pub payload: Payload,
}

/// A message envelope: sender identity, recipient identity and a body.
#[derive(Debug, Clone)]
pub struct Message {
    pub src: String,
    pub dst: String,
    pub body: Body,
}

/// The per-process mutable node state.  `assigned` is the ghost history of
/// every message id this node has handed out, in order of assignment.
pub struct NodeState {
    pub next_msg_id: usize,
    pub node_id: String,
    pub other_node_ids: Vec<String>,
    pub assigned: Ghost<Seq<usize>>,
}

/// The error kinds of the protocol.  All of them are fatal to the process.
#[derive(Debug, Clone, Copy, PartialEq, Eq, Structural)]
pub enum Error {
    MalformedEnvelope,
    HandshakeNotComplete,
    AlreadyInitialized,
    UnsupportedPayload,
    IoFailure,
}

impl Error {
    pub open spec fn spec_describe(&self) -> Seq<char> {
        match self {
            Error::MalformedEnvelope => "malformed envelope"@,
            Error::HandshakeNotComplete => "handshake not complete"@,
            Error::AlreadyInitialized => "already initialized"@,
            Error::UnsupportedPayload => "unsupported payload"@,
            Error::IoFailure => "i/o failure"@,
        }
    }

    /// A short description of the error kind, for the process boundary.
    pub fn describe(&self) -> (s: String)
        ensures
            s@ == self.spec_describe(),
    {
        match self {
            Error::MalformedEnvelope => "malformed envelope".to_owned(),
            Error::HandshakeNotComplete => "handshake not complete".to_owned(),
            Error::AlreadyInitialized => "already initialized".to_owned(),
            Error::UnsupportedPayload => "unsupported payload".to_owned(),
            Error::IoFailure => "i/o failure".to_owned(),
        }
    }
}

pub open spec fn is_init(p: Payload) -> bool {
    p matches Payload::Init { .. }
}

/// The header obligations of every reply: it goes back to the sender of the
/// request, it carries the given fresh message id, and its `in_reply_to`
/// equals the `message_id` of the envelope it answers.
pub open spec fn reply_header_ok(reply: Message, request: Message, id: usize) -> bool {
    &&& reply.src == request.dst
    &&& reply.dst == request.src
    &&& reply.body.msg_id == Some(id)
    &&& reply.body.in_reply_to == request.body.msg_id
}

impl NodeState {
    /// The node state invariant: the ids assigned so far are exactly
    /// `0, 1, ..., next_msg_id - 1`, in order of assignment.
    pub open spec fn wf(&self) -> bool {
        &&& self.assigned@.len() == self.next_msg_id
        &&& forall|i: int| 0 <= i < self.assigned@.len() ==> self.assigned@[i] == i
    }

    /// A fresh node state: counter at zero, identity unset, no peers.
    pub fn new() -> (s: NodeState)
        ensures
            s.next_msg_id == 0,
            s.node_id@ == Seq::<char>::empty(),
            s.other_node_ids@ == Seq::<String>::empty(),
            s.assigned@ == Seq::<usize>::empty(),
            s.wf(),
    {
        NodeState {
            next_msg_id: 0,
            node_id: String::new(),
            other_node_ids: Vec::new(),
            assigned: Ghost(Seq::empty()),
        }
    }
}

/// Assigning one more id, taken at the current counter, keeps the state
/// invariant.
pub proof fn lemma_assign_preserves_wf(pre: NodeState, post: NodeState)
    requires
        pre.wf(),
        post.next_msg_id == pre.next_msg_id + 1,
        post.assigned@ == pre.assigned@.push(pre.next_msg_id),
    ensures
        post.wf(),
{
    assert forall|i: int| 0 <= i < post.assigned@.len() implies post.assigned@[i] == i by {
        if i < pre.assigned@.len() {
            assert(post.assigned@[i] == pre.assigned@[i]);
        }
    }
}

/// Law: for a node that satisfies the state invariant, the sequence of ids it
/// has assigned, in order of assignment, is exactly `0, 1, ..., n - 1` where
/// `n` is the number of assignments.  Every constructor and every step of the
/// core establishes and keeps this invariant.
pub proof fn lemma_assigned_ids_in_order(s: NodeState)
    requires
        s.wf(),
    ensures
        s.assigned@.len() == s.next_msg_id,
        forall|i: int| 0 <= i < s.assigned@.len() ==> s.assigned@[i] == i,
{
}

/// What every dispatch must do: a reply, when one is emitted, answers the
/// incoming envelope, carries the current counter value as its fresh id, and
/// the counter advances by exactly one; when nothing is emitted, and on
/// failure, the state is unchanged.
pub open spec fn dispatch_outcome(
    pre: NodeState,
    msg: Message,
    r: Result<Option<Message>, Error>,
    post: NodeState,
) -> bool {
    match r {
        Ok(out) => match out {
            Some(reply) => {
                &&& reply_header_ok(reply, msg, pre.next_msg_id)
                &&& post.next_msg_id == pre.next_msg_id + 1
                &&& post.assigned@ == pre.assigned@.push(pre.next_msg_id)
            },
            None => post == pre,
        },
        Err(_) => post == pre,
    }
}

/// The dispatch contract: a node behavior consumes an envelope with mutable
/// access to its state and produces zero or one reply, or fails.  Every
/// implementation is held to `dispatch_outcome`, whatever the payload.
pub trait Node: Sized {
    spec fn node_state(&self) -> NodeState;

    fn init(state: NodeState) -> (n: Self)
        ensures
            n.node_state() == state,
    ;

    fn handle_message(&mut self, msg: Message) -> (r: Result<Option<Message>, Error>)
        requires
            old(self).node_state().wf(),
            old(self).node_state().next_msg_id < usize::MAX,
        ensures
            final(self).node_state().wf(),
            dispatch_outcome(old(self).node_state(), msg, r, final(self).node_state()),
    ;
}

/// The exact behavior of the reference echo node on each payload variant.
pub open spec fn echo_outcome(
    pre: NodeState,
    msg: Message,
    r: Result<Option<Message>, Error>,
    post: NodeState,
) -> bool {
    match msg.body.payload {
        Payload::Echo { echo } => match r {
            Ok(out) => match out {
                Some(reply) => {
                    &&& reply_header_ok(reply, msg, pre.next_msg_id)
                    &&& (reply.body.payload matches Payload::EchoOk { echo: e } && e == echo)
                    &&& post.next_msg_id == pre.next_msg_id + 1
                    &&& post.node_id == pre.node_id
                    &&& post.other_node_ids == pre.other_node_ids
                    &&& post.assigned@ == pre.assigned@.push(pre.next_msg_id)
                },
                None => false,
            },
            Err(_) => false,
        },
        Payload::EchoOk { .. } => r == Ok::<Option<Message>, Error>(None) && post == pre,
        Payload::Init { .. } => r == Err::<Option<Message>, Error>(Error::AlreadyInitialized)
            && post == pre,
        Payload::InitOk => r == Err::<Option<Message>, Error>(Error::UnsupportedPayload)
            && post == pre,
    }
}

/// The reference behavior: answers `echo` with `echo_ok` carrying the same
/// string, tolerates a courtesy `echo_ok` as a no-op, and fails on anything
/// else.
pub struct EchoNode {
    pub state: NodeState,
}

impl EchoNode {
    /// One echo dispatch, with its exact per-variant contract.
    pub fn handle(&mut self, msg: Message) -> (r: Result<Option<Message>, Error>)
        requires
            old(self).state.next_msg_id < usize::MAX,
        ensures
            echo_outcome(old(self).state, msg, r, final(self).state),
    {
        let Message { src, dst, body } = msg;
        let Body { msg_id, in_reply_to: _, payload } = body;
        match payload {
            Payload::Echo { echo } => {
                let id = self.state.next_msg_id;
                let reply = Message {
                    src: dst,
                    dst: src,
                    body: Body {
                        msg_id: Some(id),
                        in_reply_to: msg_id,
                        payload: Payload::EchoOk { echo },
                    },
                };
                self.state.assigned = Ghost(self.state.assigned@.push(id));
                self.state.next_msg_id = id + 1;
                Ok(Some(reply))
            },
            Payload::EchoOk { .. } => Ok(None),
            Payload::Init { .. } => Err(Error::AlreadyInitialized),
            Payload::InitOk => Err(Error::UnsupportedPayload),
        }
    }
}

impl Node for EchoNode {
    open spec fn node_state(&self) -> NodeState {
        self.state
    }

    fn init(state: NodeState) -> (n: Self) {
        EchoNode { state }
    }

    fn handle_message(&mut self, msg: Message) -> (r: Result<Option<Message>, Error>)
        ensures
            echo_outcome(old(self).state, msg, r, final(self).state),
    {
        let r = self.handle(msg);
        proof {
            if self.state.next_msg_id != old(self).state.next_msg_id {
                lemma_assign_preserves_wf(old(self).state, self.state);
            }
        }
        r
    }
}

/// The framework around a behavior: a two-state machine that consumes exactly
/// one `init` envelope before handing everything else to the behavior.
pub enum Runner<N> {
    Uninitialized(NodeState),
    Active(N),
}

impl<N: Node> Runner<N> {
    pub open spec fn wf(&self) -> bool {
        match self {
            Runner::Uninitialized(s) => s.wf(),
            Runner::Active(n) => n.node_state().wf(),
        }
    }

    /// The current value of the node's message id counter.
    pub open spec fn next_id(&self) -> usize {
        match self {
            Runner::Uninitialized(s) => s.next_msg_id,
            Runner::Active(n) => n.node_state().next_msg_id,
        }
    }

    /// The ghost history of assigned message ids.
    pub open spec fn assigned_ids(&self) -> Seq<usize> {
        match self {
            Runner::Uninitialized(s) => s.assigned@,
            Runner::Active(n) => n.node_state().assigned@,
        }
    }

    /// The exact outcome of one step of the framework.
    pub open spec fn step_outcome(
        self,
        msg: Message,
        post: Runner<N>,
        r: Result<Option<Message>, Error>,
    ) -> bool {
        match self {
            Runner::Uninitialized(s) => match msg.body.payload {
                Payload::Init { node_id, node_ids } => match r {
                    Ok(out) => match out {
                        Some(reply) => {
                            &&& reply_header_ok(reply, msg, s.next_msg_id)
                            &&& reply.body.payload matches Payload::InitOk
                            &&& (post matches Runner::Active(n) && {
                                &&& n.node_state().next_msg_id == s.next_msg_id + 1
                                &&& n.node_state().node_id == node_id
                                &&& n.node_state().other_node_ids == node_ids
                                &&& n.node_state().assigned@ == s.assigned@.push(s.next_msg_id)
                            })
                        },
                        None => false,
                    },
                    Err(_) => false,
                },
                _ => r == Err::<Option<Message>, Error>(Error::HandshakeNotComplete)
                    && post == self,
            },
            Runner::Active(n) => match msg.body.payload {
                Payload::Init { .. } => r == Err::<Option<Message>, Error>(
                    Error::AlreadyInitialized,
                ) && post == self,
                _ => post matches Runner::Active(n2) && dispatch_outcome(
                    n.node_state(),
                    msg,
                    r,
                    n2.node_state(),
                ),
            },
        }
    }

    /// A fresh framework, waiting for the handshake.
    pub fn new() -> (r: Runner<N>)
        ensures
            r.wf(),
            r.next_id() == 0,
            r.assigned_ids() == Seq::<usize>::empty(),
            r matches Runner::Uninitialized(s) && s.node_id@ == Seq::<char>::empty()
                && s.other_node_ids@ == Seq::<String>::empty(),
    {
        Runner::Uninitialized(NodeState::new())
    }

    /// One step: the handshake while uninitialized, the behavior's dispatch
    /// afterwards.  A non-init envelope before the handshake fails with
    /// `HandshakeNotComplete`; a second `init` fails with
    /// `AlreadyInitialized`; neither is ever silently ignored.
    pub fn step(self, msg: Message) -> (res: (Runner<N>, Result<Option<Message>, Error>))
        requires
            self.wf(),
            self.next_id() < usize::MAX,
        ensures
            res.0.wf(),
            self.step_outcome(msg, res.0, res.1),
            (self matches Runner::Uninitialized(_) && !is_init(msg.body.payload)) ==> res.1
                == Err::<Option<Message>, Error>(Error::HandshakeNotComplete),
            (self matches Runner::Active(_) && is_init(msg.body.payload)) ==> res.1
                == Err::<Option<Message>, Error>(Error::AlreadyInitialized),
            (match res.1 {
                Ok(out) => match out {
                    Some(reply) => reply.body.msg_id == Some(self.next_id())
                        && reply.body.in_reply_to == msg.body.msg_id && res.0.assigned_ids()
                        == self.assigned_ids().push(self.next_id()),
                    None => true,
                },
                Err(_) => true,
            }),
    {
        match self {
            Runner::Uninitialized(mut s) => {
                let Message { src, dst, body } = msg;
                let Body { msg_id, in_reply_to: _, payload } = body;
                match payload {
                    Payload::Init { node_id, node_ids } => {
                        let ghost pre = s;
                        let id = s.next_msg_id;
                        let reply = Message {
                            src: dst,
                            dst: src,
                            body: Body {
                                msg_id: Some(id),
                                in_reply_to: msg_id,
                                payload: Payload::InitOk,
                            },
                        };
                        s.assigned = Ghost(s.assigned@.push(id));
                        s.next_msg_id = id + 1;
                        s.node_id = node_id;
                        s.other_node_ids = node_ids;
                        proof {
                            lemma_assign_preserves_wf(pre, s);
                        }
                        (Runner::Active(N::init(s)), Ok(Some(reply)))
                    },
                    _ => (Runner::Uninitialized(s), Err(Error::HandshakeNotComplete)),
                }
            },
            Runner::Active(mut n) => {
                match &msg.body.payload {
                    Payload::Init { .. } => (Runner::Active(n), Err(Error::AlreadyInitialized)),
                    _ => {
                        let r = n.handle_message(msg);
                        (Runner::Active(n), r)
                    },
                }
            },
        }
    }
}

} // verus!
