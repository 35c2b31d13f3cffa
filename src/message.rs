//! The wire record exchanged with the peer's end of the substream.
use vstd::prelude::*;

verus! {

/// Sequence number of one outgoing data segment.
pub type Seqno = u64;

/// What a reliable-stream message carries.
#[derive(Clone, Copy, Debug, PartialEq, Eq, Structural)]
pub enum RelKind {
    /// A data segment: `seqno` numbers it, `payload` is its bytes.
    Data,
    /// An acknowledgement: `seqno` is the cumulative boundary, `payload` the
    /// encoded ascending list of individually acknowledged seqnos.
    DataAck,
    /// The peer reset the stream; fatal.
    Rst,
}

/// One message of a reliable substream.
#[derive(Debug)]
pub struct Message {
    pub kind: RelKind,
    pub stream_id: u16,
    pub seqno: Seqno,
    pub payload: Vec<u8>,
}

impl Message {
    /// A field-by-field copy.
    pub fn copy(&self) -> (r: Message)
        ensures
            r.kind == self.kind,
            r.stream_id == self.stream_id,
            r.seqno == self.seqno,
            r.payload@ == self.payload@,
    {
        let mut payload: Vec<u8> = Vec::with_capacity(self.payload.len());
        let mut i: usize = 0;
        while i < self.payload.len()
            invariant
                i <= self.payload.len(),
                payload@ == self.payload@.subrange(0, i as int),
            decreases self.payload.len() - i,
        {
            payload.push(self.payload[i]);
            i += 1;
            assert(payload@ =~= self.payload@.subrange(0, i as int));
        }
        assert(payload@ =~= self.payload@);
        Message { kind: self.kind, stream_id: self.stream_id, seqno: self.seqno, payload }
    }
}

} // verus!
