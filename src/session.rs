use vstd::prelude::*;
use crate::message::ParsedMessage;

verus! {

/// Largest forward gap (milliseconds) between consecutive messages of one session.
pub const MAX_JUMP_MS: u32 = 1000;

/// Whether a session ends between a message at `prev` and the next one at
/// `next`: the time went back, or jumped forward by more than `max_jump`.
pub open spec fn is_cut(prev: u32, next: u32, max_jump: u32) -> bool {
    next < prev || next - prev > max_jump
}

/// The messages of `chunks`, chunk after chunk.
pub open spec fn concat(chunks: Seq<Vec<ParsedMessage>>) -> Seq<ParsedMessage>
    decreases chunks.len(),
{
    if chunks.len() == 0 {
        Seq::empty()
    } else {
        concat(chunks.drop_last()) + chunks.last()@
    }
}

/// No cut between consecutive messages of `c`.
pub open spec fn no_cut_inside(c: Seq<ParsedMessage>, max_jump: u32) -> bool {
    forall|j: int| 1 <= j < c.len() ==> !is_cut(c[j - 1].timestamp, #[trigger] c[j].timestamp, max_jump)
}

/// `c` is in ascending timestamp order.
pub open spec fn sorted_by_time(c: Seq<ParsedMessage>) -> bool {
    forall|i: int, j: int| 0 <= i <= j < c.len() ==> c[i].timestamp <= c[j].timestamp
}

/// `chunks` splits `input` into sessions: in order, each non-empty, cut
/// exactly where consecutive messages are cut.
pub open spec fn is_session_split(input: Seq<ParsedMessage>, chunks: Seq<Vec<ParsedMessage>>, max_jump: u32) -> bool {
    &&& concat(chunks) == input
    &&& forall|k: int| 0 <= k < chunks.len() ==> (#[trigger] chunks[k])@.len() > 0
    &&& forall|k: int| 0 <= k < chunks.len() ==> no_cut_inside((#[trigger] chunks[k])@, max_jump)
    &&& forall|k: int| 1 <= k < chunks.len() ==>
        is_cut(chunks[k - 1]@.last().timestamp, (#[trigger] chunks[k])@[0].timestamp, max_jump)
}

proof fn lemma_no_cut_sorted(c: Seq<ParsedMessage>, max_jump: u32)
    requires
        no_cut_inside(c, max_jump),
    ensures
        sorted_by_time(c),
    decreases c.len(),
{
    if c.len() > 1 {
        let d = c.drop_last();
        assert forall|j: int| 1 <= j < d.len() implies !is_cut(d[j - 1].timestamp, #[trigger] d[j].timestamp, max_jump) by {
            assert(d[j] == c[j] && d[j - 1] == c[j - 1]);
        }
        lemma_no_cut_sorted(d, max_jump);
        assert forall|i: int, j: int| 0 <= i <= j < c.len() implies c[i].timestamp <= c[j].timestamp by {
            if j == c.len() - 1 && i < j {
                assert(d[i] == c[i] && d[j - 1] == c[j - 1]);
                assert(!is_cut(c[j - 1].timestamp, c[j].timestamp, max_jump));
            } else if i < j {
                assert(d[i] == c[i] && d[j] == c[j]);
            }
        }
    }
}

/// Splits messages into sessions at each cut, with `max_jump` as the
/// largest forward gap, and gives each session in ascending time order.
/// Since every regression is a cut, each session comes out already in time
/// order: no sort is needed, and the contract says so.
pub fn chunk_parsed_with(parsed: Vec<ParsedMessage>, max_jump: u32) -> (chunks: Vec<Vec<ParsedMessage>>)
    ensures
        is_session_split(parsed@, chunks@, max_jump),
        forall|k: int| 0 <= k < chunks.len() ==> sorted_by_time((#[trigger] chunks@[k])@),
        parsed@.len() == 0 <==> chunks@.len() == 0,
{
    let ghost input = parsed@;
    let mut chunks: Vec<Vec<ParsedMessage>> = Vec::new();
    let mut current: Vec<ParsedMessage> = Vec::new();
    let mut last_timestamp: Option<u32> = None;
    for msg in it: parsed
        invariant
            it.seq() == input,
            concat(chunks@) + current@ == input.take(it.index() as int),
            forall|k: int| 0 <= k < chunks.len() ==> (#[trigger] chunks@[k])@.len() > 0,
            forall|k: int| 0 <= k < chunks.len() ==> no_cut_inside((#[trigger] chunks@[k])@, max_jump),
            forall|k: int| 1 <= k < chunks.len() ==>
                is_cut(chunks@[k - 1]@.last().timestamp, (#[trigger] chunks@[k])@[0].timestamp, max_jump),
            no_cut_inside(current@, max_jump),
            chunks.len() > 0 && current.len() > 0 ==>
                is_cut(chunks@.last()@.last().timestamp, current@[0].timestamp, max_jump),
            it.index() == 0 ==> chunks.len() == 0 && current.len() == 0,
            it.index() > 0 ==> current.len() > 0 && last_timestamp == Some(current@.last().timestamp),
    {
        let ghost idx = it.index() as int;
        proof {
            assert(input.take(idx + 1) =~= input.take(idx).push(msg));
        }
        let cut = match last_timestamp {
            Some(last_ts) => msg.timestamp < last_ts || msg.timestamp - last_ts > max_jump,
            None => false,
        };
        if cut && current.len() > 0 {
            let ghost before = chunks@;
            let mut closed: Vec<ParsedMessage> = Vec::new();
            std::mem::swap(&mut closed, &mut current);
            chunks.push(closed);
            proof {
                assert(chunks@.drop_last() =~= before);
                assert(concat(chunks@) + current@ =~= concat(before) + closed@);
            }
        }
        let ghost cur_before = current@;
        let ts = msg.timestamp;
        current.push(msg);
        proof {
            assert forall|j: int| 1 <= j < current@.len() implies
                !is_cut(current@[j - 1].timestamp, #[trigger] current@[j].timestamp, max_jump) by {
                if j < current@.len() - 1 {
                    assert(current@[j] == cur_before[j] && current@[j - 1] == cur_before[j - 1]);
                }
            }
            assert(concat(chunks@) + current@ =~= (concat(chunks@) + cur_before).push(msg));
        }
        last_timestamp = Some(ts);
    }
    if current.len() > 0 {
        let ghost before = chunks@;
        chunks.push(current);
        proof {
            assert(chunks@.drop_last() =~= before);
        }
    }
    proof {
        assert(input.take(input.len() as int) =~= input);
        assert forall|k: int| 0 <= k < chunks.len() implies sorted_by_time((#[trigger] chunks@[k])@) by {
            lemma_no_cut_sorted(chunks@[k]@, max_jump);
        }
        if chunks@.len() == 0 {
            assert(concat(chunks@) =~= Seq::<ParsedMessage>::empty());
        }
    }
    chunks
}

/// Splits messages into sessions with the default largest gap of
/// `MAX_JUMP_MS`; see `chunk_parsed_with`.
pub fn chunk_parsed(parsed: Vec<ParsedMessage>) -> (chunks: Vec<Vec<ParsedMessage>>)
    ensures
        is_session_split(parsed@, chunks@, MAX_JUMP_MS),
        forall|k: int| 0 <= k < chunks.len() ==> sorted_by_time((#[trigger] chunks@[k])@),
        parsed@.len() == 0 <==> chunks@.len() == 0,
{
    chunk_parsed_with(parsed, MAX_JUMP_MS)
}

} // verus!
