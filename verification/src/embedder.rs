use crate::controller::EmbedderMsg;
use crate::metadata::NodeMetadata;
use vstd::prelude::*;

verus! {

/// New edges for the model: those of one run of consecutive edge updates,
/// joined in the order they came, with the number of messages they came in.
pub struct EdgeBatch {
    pub block_edges: Vec<(NodeMetadata, NodeMetadata)>,
    pub state_edges: Vec<(NodeMetadata, NodeMetadata)>,
    pub messages: usize,
}

/// A batch as plain sequences.
pub open spec fn batch_view(b: EdgeBatch) -> (Seq<(NodeMetadata, NodeMetadata)>, Seq<(NodeMetadata, NodeMetadata)>, nat) {
    (b.block_edges@, b.state_edges@, b.messages as nat)
}

/// The batches that a queue of messages makes: every run of consecutive
/// edge updates becomes one batch, its edges joined in order; a wake-up
/// ends a run and brings no edges.
pub open spec fn batches_of(q: Seq<EmbedderMsg>) -> Seq<(Seq<(NodeMetadata, NodeMetadata)>, Seq<(NodeMetadata, NodeMetadata)>, nat)>
    decreases q.len(),
{
    if q.len() == 0 {
        Seq::empty()
    } else {
        let b = batches_of(q.drop_last());
        match q.last() {
            EmbedderMsg::UpdateEdges { block_edges, state_edges } => if q.len() >= 2 && q[q.len() - 2] is UpdateEdges {
                let l = b.last();
                b.update(b.len() - 1, (l.0 + block_edges@, l.1 + state_edges@, l.2 + 1))
            } else {
                b.push((block_edges@, state_edges@, 1))
            },
            EmbedderMsg::WakeUp => b,
        }
    }
}

/// What the embedder thread knows between turns: whether it may wait for
/// the next message, and the messages it has not handled yet, oldest first.
pub struct EmbedderState {
    pub blocking: bool,
    pub pending: Vec<EmbedderMsg>,
}

/// What the embedder thread does after hearing from its channel.
pub enum EmbedderAction {
    /// Go on: poll again or handle what is pending.
    Continue,
    /// The controller is gone: leave the thread.
    Exit,
}

/// A fresh embedder: it waits for the first message.
pub fn embedder_start() -> (s: EmbedderState)
    ensures
        s.blocking,
        s.pending@ == Seq::<EmbedderMsg>::empty(),
{
    EmbedderState { blocking: true, pending: Vec::new() }
}

/// One message from the channel, or `None` once the controller has hung
/// up: a message is queued behind the pending ones, and a hang-up ends the
/// thread.
pub fn embedder_step(s: &mut EmbedderState, msg: Option<EmbedderMsg>) -> (a: EmbedderAction)
    ensures
        final(s).blocking == old(s).blocking,
        match msg {
            Some(m) => a is Continue && final(s).pending@ == old(s).pending@.push(m),
            None => a is Exit && final(s).pending@ == old(s).pending@,
        },
{
    match msg {
        Some(m) => {
            s.pending.push(m);
            EmbedderAction::Continue
        },
        None => EmbedderAction::Exit,
    }
}

/// Whether to wait for a message rather than poll: only while blocking and
/// with nothing pending.
pub fn embedder_should_block(s: &EmbedderState) -> (b: bool)
    ensures
        b == (s.blocking && s.pending@.len() == 0),
{
    s.blocking && s.pending.len() == 0
}

proof fn lemma_batches_count(q: Seq<EmbedderMsg>)
    ensures
        forall|i: int| 0 <= i < batches_of(q).len() ==> 1 <= #[trigger] batches_of(q)[i].2 <= q.len(),
        q.len() > 0 && q.last() is UpdateEdges ==> batches_of(q).len() > 0,
    decreases q.len(),
{
    if q.len() > 0 {
        let p = q.drop_last();
        lemma_batches_count(p);
        let b = batches_of(p);
        assert forall|i: int| 0 <= i < batches_of(q).len() implies 1 <= #[trigger] batches_of(q)[i].2 <= q.len() by {
            if i < b.len() {
                assert(1 <= b[i].2 <= p.len());
            }
            if q.len() >= 2 && q[q.len() - 2] is UpdateEdges {
                assert(p.last() == q[q.len() - 2]);
            }
        }
        if q.len() >= 2 && q[q.len() - 2] is UpdateEdges {
            assert(p.last() == q[q.len() - 2]);
        }
    }
}

/// Handles every pending message, oldest first: each run of consecutive
/// edge updates becomes one batch for the model, and any message at all
/// means the layout has work, so the thread stops blocking.
pub fn embedder_take_batches(s: &mut EmbedderState) -> (batches: Vec<EdgeBatch>)
    ensures
        final(s).pending@ == Seq::<EmbedderMsg>::empty(),
        final(s).blocking == (old(s).blocking && old(s).pending@.len() == 0),
        batches@.map_values(|b: EdgeBatch| batch_view(b)) == batches_of(old(s).pending@),
{
    let mut pending: Vec<EmbedderMsg> = Vec::new();
    std::mem::swap(&mut pending, &mut s.pending);
    let ghost q = pending@;
    if pending.len() > 0 {
        s.blocking = false;
    }
    let mut out: Vec<EdgeBatch> = Vec::new();
    let mut last_was_update = false;
    let n = pending.len();
    let mut i: usize = 0;
    while pending.len() > 0
        invariant
            n == q.len(),
            i <= q.len(),
            pending@ == q.skip(i as int),
            out@.map_values(|b: EdgeBatch| batch_view(b)) == batches_of(q.take(i as int)),
            last_was_update == (i > 0 && q[i - 1] is UpdateEdges),
        decreases pending@.len(),
    {
        let m = pending.remove(0);
        proof {
            assert(i < q.len());
            assert(m == q[i as int]);
            assert(q.take(i + 1).drop_last() =~= q.take(i as int));
            assert(pending@ =~= q.skip(i + 1));
            lemma_batches_count(q.take(i + 1));
            lemma_batches_count(q.take(i as int));
        }
        let ghost before = out@;
        match m {
            EmbedderMsg::UpdateEdges { block_edges, state_edges } => {
                let mut block_edges = block_edges;
                let mut state_edges = state_edges;
                if last_was_update {
                    let mut b = out.pop().unwrap();
                    proof {
                        assert(q.take(i as int).last() == q[i - 1]);
                        assert(b.messages <= i);
                    }
                    b.block_edges.append(&mut block_edges);
                    b.state_edges.append(&mut state_edges);
                    b.messages = b.messages + 1;
                    out.push(b);
                    proof {
                        assert(q.take(i + 1)[i - 1] == q[i - 1]);
                        assert(out@.map_values(|b: EdgeBatch| batch_view(b)) =~= batches_of(q.take(i + 1)));
                    }
                } else {
                    out.push(EdgeBatch { block_edges, state_edges, messages: 1 });
                    proof {
                        if i > 0 {
                            assert(q.take(i + 1)[i - 1] == q[i - 1]);
                        }
                        assert(out@.map_values(|b: EdgeBatch| batch_view(b)) =~= batches_of(q.take(i + 1)));
                    }
                }
                last_was_update = true;
            },
            EmbedderMsg::WakeUp => {
                last_was_update = false;
            },
        }
        i = i + 1;
    }
    proof {
        assert(q.take(i as int) =~= q);
    }
    out
}

/// After a round of layout: a layout that has converged lets the thread
/// wait again; one that has not keeps it polling if it was.
pub fn embedder_layout_done(s: &mut EmbedderState, converged: bool)
    ensures
        final(s).blocking == (old(s).blocking || converged),
        final(s).pending == old(s).pending,
{
    if converged {
        s.blocking = true;
    }
}

} // verus!
