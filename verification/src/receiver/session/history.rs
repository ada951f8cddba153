//! What a session hands over in its life.

use crate::proto::payload::HelloView;
use crate::receiver::session;
use crate::receiver::session::SessionView;
use crate::transport::IncomingView;
use vstd::prelude::*;

verus! {

/// What happens to a session, with the blocks that it hands over.
pub enum StepView {
    /// Something is heard of the sender.
    Heard(u64),
    /// Something arrives.
    Arrival { arrival: IncomingView, now: u64 },
    /// Repairs are asked for.
    Ask(u64),
    /// Blocks are handed to a sink that takes that many.
    HandOver { now: u64, room: usize, blocks: Seq<Seq<u8>> },
    /// The sender is reported to.
    Report,
    /// Progress is told.
    Progress(u64),
}

impl SessionView {
    /// Whether that is what the session comes to.
    pub open spec fn leads_to(self, step: StepView, after: SessionView) -> bool {
        match step {
            StepView::Heard(now) => after == (SessionView { last_packet: now, ..self }),
            StepView::Arrival { arrival, now } => after == self.after(arrival, now),
            StepView::Ask(now) => after == self.asking(now),
            StepView::HandOver { now, room, blocks } => self.hands_over(now, room, blocks, after),
            StepView::Report => after == (SessionView { sink_stall: 0, ..self }),
            StepView::Progress(now) => after == (SessionView {
                last_report: now,
                bytes_at_last_report: self.written_bytes,
                ..self
            }),
        }
    }
}

/// Whether the session that an announcement starts comes to be each of `sessions` in
/// turn, one step after another.
pub open spec fn is_life(
    receiver_id: u64,
    hello: HelloView,
    now: u64,
    sessions: Seq<SessionView>,
    steps: Seq<StepView>,
) -> bool {
    &&& sessions.len() == steps.len() + 1
    &&& sessions[0] == session::opened(receiver_id, hello, now)
    &&& forall|i: int|
        #![trigger steps[i]]
        0 <= i < steps.len() ==> sessions[i].leads_to(steps[i], sessions[i + 1])
}

/// The bytes that were handed over in the first `upto` steps.
pub open spec fn handed_over(steps: Seq<StepView>, upto: int) -> Seq<u8>
    decreases upto,
{
    if upto <= 0 {
        Seq::empty()
    } else {
        handed_over(steps, upto - 1) + match steps[upto - 1] {
            StepView::HandOver { now, room, blocks } => session::joined(blocks),
            _ => Seq::empty(),
        }
    }
}

/// Whatever arrives, of the transfer or not, the bytes that were handed over and
/// those that wait for the sink are together as many as were written.
pub proof fn what_left_and_what_waits_was_written(
    receiver_id: u64,
    hello: HelloView,
    now: u64,
    sessions: Seq<SessionView>,
    steps: Seq<StepView>,
    at: int,
)
    requires
        is_life(receiver_id, hello, now, sessions, steps),
        0 <= at <= steps.len(),
    ensures
        handed_over(steps, at).len() + session::joined(sessions[at].pending).len()
            == sessions[at].written_bytes,
        sessions[at].pending.len() == 0 ==> handed_over(steps, at).len()
            == sessions[at].written_bytes,
    decreases at,
{
    if at > 0 {
        what_left_and_what_waits_was_written(receiver_id, hello, now, sessions, steps, at - 1);
        assert(sessions[at - 1].leads_to(steps[at - 1], sessions[at]));
    }
}

} // verus!
