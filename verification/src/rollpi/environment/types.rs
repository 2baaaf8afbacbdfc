//! What participants and the history hand to each other.

use crate::rollpi::syntax::{
    ChName, ProcTag, ProcTagView, ProcVar, Process, ProcessView, TagKey, TagVar, TaggedProc,
    TaggedProcView,
};
use vstd::prelude::*;

verus! {

/// What a send puts on a channel: who sent, the process sent, and the tag of
/// the sending unit.
#[derive(Debug)]
pub struct PartyComm {
    pub sender_id: String,
    pub process: Process,
    pub tag: ProcTag,
}

/// The view of a `PartyComm`.
pub struct PartyCommView {
    pub sender_id: Seq<char>,
    pub process: ProcessView,
    pub tag: ProcTagView,
}

impl View for PartyComm {
    type V = PartyCommView;

    open spec fn view(&self) -> PartyCommView {
        PartyCommView { sender_id: self.sender_id@, process: self.process@, tag: self.tag@ }
    }
}

impl PartyComm {
    /// What the participant `sender_id` puts on a channel when its unit
    /// tagged `tag` sends `process`.
    pub fn new(sender_id: String, process: Process, tag: ProcTag) -> (r: Self)
        ensures
            r@ == (PartyCommView { sender_id: sender_id@, process: process@, tag: tag@ }),
    {
        PartyComm { sender_id, process, tag }
    }
}

/// The record of one completed rendezvous.
pub struct MemoryPiece {
    /// The ids of the sender and of the receiver.
    pub ids: (String, String),
    /// The sending unit.
    pub sender: TaggedProc,
    /// The receiving unit.
    pub receiver: TaggedProc,
    /// The key of the step.
    pub new_mem_tag: TagKey,
    _secret: (),
}

/// The view of a `MemoryPiece`.
pub struct MemoryPieceView {
    pub sender_id: Seq<char>,
    pub receiver_id: Seq<char>,
    pub sender: TaggedProcView,
    pub receiver: TaggedProcView,
    pub new_mem_tag: Seq<char>,
}

impl View for MemoryPiece {
    type V = MemoryPieceView;

    closed spec fn view(&self) -> MemoryPieceView {
        MemoryPieceView {
            sender_id: self.ids.0@,
            receiver_id: self.ids.1@,
            sender: self.sender@,
            receiver: self.receiver@,
            new_mem_tag: self.new_mem_tag@,
        }
    }
}

impl MemoryPieceView {
    /// Whether the record pairs a send with a receive.
    pub open spec fn paired(self) -> bool {
        self.sender.proc is Send && self.receiver.proc is Recv
    }
}

impl MemoryPiece {
    /// The record of the rendezvous of the send `sender` with the receive
    /// `receiver`, each given by its tag and its parts, under the key
    /// `new_mem_tag`.
    pub fn new(
        ids: (String, String),
        sender: (ProcTag, (ChName, Process)),
        receiver: (ProcTag, (ChName, ProcVar, TagVar, Process)),
        new_mem_tag: TagKey,
    ) -> (r: Self)
        ensures
            r@ == (MemoryPieceView {
                sender_id: ids.0@,
                receiver_id: ids.1@,
                sender: TaggedProcView {
                    tag: sender.0@,
                    proc: ProcessView::Send(sender.1.0@, Box::new(sender.1.1@)),
                },
                receiver: TaggedProcView {
                    tag: receiver.0@,
                    proc: ProcessView::Recv(
                        receiver.1.0@,
                        receiver.1.1@,
                        receiver.1.2@,
                        Box::new(receiver.1.3@),
                    ),
                },
                new_mem_tag: new_mem_tag@,
            }),
            r@.paired(),
    {
        let (s_tag, (s_ch, s_proc)) = sender;
        let (r_tag, (r_ch, r_pv, r_tv, r_proc)) = receiver;
        MemoryPiece {
            ids,
            sender: TaggedProc { tag: s_tag, proc: Process::Send(s_ch, Box::new(s_proc)) },
            receiver: TaggedProc {
                tag: r_tag,
                proc: Process::Recv(r_ch, r_pv, r_tv, Box::new(r_proc)),
            },
            new_mem_tag,
            _secret: (),
        }
    }

    /// The parts of the record: the two ids, the sending unit, the
    /// receiving unit and the key of the step.
    pub fn into_parts(self) -> (r: ((String, String), TaggedProc, TaggedProc, TagKey))
        ensures
            self@ == (MemoryPieceView {
                sender_id: r.0.0@,
                receiver_id: r.0.1@,
                sender: r.1@,
                receiver: r.2@,
                new_mem_tag: r.3@,
            }),
    {
        (self.ids, self.sender, self.receiver, self.new_mem_tag)
    }
}

/// Why a participant could not go on: each of these ends its run.
#[derive(Debug, PartialEq, Eq)]
pub enum ProtocolError {
    /// The other end of a channel is gone.
    Disconnected,
    /// The history confirmed another key than the one sent to it.
    ConfirmationMismatch,
    /// A unit names a channel that was never set up.
    UnknownChannel,
    /// A continuation has a variable at top level once the message is put
    /// in: the term was not closed.
    OpenTerm,
    /// The participant has minted as many keys as it can count.
    TagsExhausted,
    /// A unit to take up again is neither a send nor a receive.
    NotResumable,
}

} // verus!
