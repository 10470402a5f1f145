//! Properties of what the framer sends, over whole byte streams.

use vstd::prelude::*;
use crate::frame::{law_chunking_invariant, lemma_nonempty_append, nonempty, stream, FrameState};

verus! {

/// When each message is answered by `answer`, what reaches the sink does
/// not depend on how the stream is cut: the non-empty answers to the
/// messages of `a + b` are those of `a` followed by those of `b`.
pub proof fn law_sent_chunking_invariant(
    rx: nat,
    s: FrameState,
    a: Seq<u8>,
    b: Seq<u8>,
    answer: spec_fn(Seq<u8>) -> Seq<u8>,
)
    ensures
        nonempty(stream(rx, s, a + b).1.map_values(answer)) == nonempty(
            stream(rx, s, a).1.map_values(answer),
        ) + nonempty(stream(rx, stream(rx, s, a).0, b).1.map_values(answer)),
{
    law_chunking_invariant(rx, s, a, b);
    let x = stream(rx, s, a).1;
    let y = stream(rx, stream(rx, s, a).0, b).1;
    assert((x + y).map_values(answer) =~= x.map_values(answer) + y.map_values(answer));
    lemma_nonempty_append(x.map_values(answer), y.map_values(answer));
}

} // verus!
