use vstd::prelude::*;

verus! {

/// The serialized form of one record: the store's wire representation, held
/// as canonical bytes. Two wire requests denote the same write exactly when
/// their bytes are equal; the store echoes unprocessed entries back by
/// content, not by any caller-assigned identifier.
pub struct WireRequest {
    pub bytes: Vec<u8>,
}

impl View for WireRequest {
    type V = Seq<u8>;

    open spec fn view(&self) -> Seq<u8> {
        self.bytes@
    }
}

impl WireRequest {
    pub fn new(bytes: Vec<u8>) -> (r: WireRequest)
        ensures
            r@ == bytes@,
    {
        WireRequest { bytes }
    }

    /// Full value equality of the serialized content.
    pub fn matches(&self, other: &WireRequest) -> (r: bool)
        ensures
            r == (self@ == other@),
    {
        if self.bytes.len() != other.bytes.len() {
            return false;
        }
        let mut i: usize = 0;
        while i < self.bytes.len()
            invariant
                i <= self.bytes.len(),
                self.bytes.len() == other.bytes.len(),
                forall|j: int| 0 <= j < i ==> self.bytes@[j] == other.bytes@[j],
            decreases self.bytes.len() - i,
        {
            if self.bytes[i] != other.bytes[i] {
                return false;
            }
            i += 1;
        }
        proof {
            assert(self@ =~= other@);
        }
        true
    }

    /// A fresh wire request with the same content, so the same entry can be
    /// resent across retries without re-serializing the record.
    pub fn duplicate(&self) -> (r: WireRequest)
        ensures
            r@ == self@,
    {
        let mut bytes: Vec<u8> = Vec::new();
        let mut i: usize = 0;
        while i < self.bytes.len()
            invariant
                i <= self.bytes.len(),
                bytes@ == self.bytes@.take(i as int),
            decreases self.bytes.len() - i,
        {
            bytes.push(self.bytes[i]);
            i += 1;
        }
        proof {
            assert(bytes@ =~= self.bytes@);
        }
        WireRequest { bytes }
    }
}

/// What one group member looks like in specifications: the record's position
/// in the caller's input, and the bytes of its serialized form.
pub ghost struct EntryView {
    pub id: int,
    pub req: Seq<u8>,
}

/// One member of a group: a record, identified by its position in the
/// caller's input, paired with its serialized form. The engine never rebuilds
/// the wire request from the record; it is produced once and reused across
/// retries.
pub struct Entry {
    pub id: usize,
    pub req: WireRequest,
}

impl View for Entry {
    type V = EntryView;

    open spec fn view(&self) -> EntryView {
        EntryView { id: self.id as int, req: self.req@ }
    }
}

impl Entry {
    pub fn new(id: usize, req: WireRequest) -> (r: Entry)
        ensures
            r@ == (EntryView { id: id as int, req: req@ }),
    {
        Entry { id, req }
    }

    pub fn duplicate(&self) -> (r: Entry)
        ensures
            r@ == self@,
    {
        Entry { id: self.id, req: self.req.duplicate() }
    }
}

/// The views of a sequence of entries.
pub open spec fn entry_views(s: Seq<Entry>) -> Seq<EntryView> {
    s.map_values(|e: Entry| e@)
}

/// Why a record never reached a durable write.
#[derive(Debug)]
pub enum FailureReason {
    /// The record could not be represented in wire form; it never reached
    /// the store.
    Serialization,
    /// The store still reported the entry as unprocessed after the group's
    /// final retry.
    RetriesExceeded,
    /// A whole store call failed; the message describes the call error.
    CallFailed { message: String },
}

impl FailureReason {
    /// A fresh reason with the same content, so one reason can be attached
    /// to every member of a failed group.
    pub fn duplicate(&self) -> (r: FailureReason)
        ensures
            r@ == self@,
    {
        match self {
            FailureReason::Serialization => FailureReason::Serialization,
            FailureReason::RetriesExceeded => FailureReason::RetriesExceeded,
            FailureReason::CallFailed { message } => FailureReason::CallFailed {
                message: message.clone(),
            },
        }
    }
}

/// A failure reason as specifications see it.
pub ghost enum ReasonView {
    Serialization,
    RetriesExceeded,
    CallFailed(Seq<char>),
}

impl View for FailureReason {
    type V = ReasonView;

    open spec fn view(&self) -> ReasonView {
        match self {
            FailureReason::Serialization => ReasonView::Serialization,
            FailureReason::RetriesExceeded => ReasonView::RetriesExceeded,
            FailureReason::CallFailed { message } => ReasonView::CallFailed(message@),
        }
    }
}

/// A failure as specifications see it.
pub ghost struct FailureView {
    pub id: int,
    pub reason: ReasonView,
}

/// One line of the final report: a record, by its position in the caller's
/// input, together with the reason it was not durably written.
#[derive(Debug)]
pub struct Failure {
    pub id: usize,
    pub reason: FailureReason,
}

impl View for Failure {
    type V = FailureView;

    open spec fn view(&self) -> FailureView {
        FailureView { id: self.id as int, reason: self.reason@ }
    }
}

/// The views of a sequence of failures.
pub open spec fn failure_views(s: Seq<Failure>) -> Seq<FailureView> {
    s.map_values(|f: Failure| f@)
}

} // verus!
