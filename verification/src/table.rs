//! Handing the rows of a table function out, call by call.

use vstd::prelude::*;

verus! {

/// How many rows one call hands out at most.
pub const CHUNK: usize = 2048;

/// How many of `total` rows the call at `cursor` hands out.
pub open spec fn chunk_len(total: nat, cursor: nat) -> nat {
    if cursor >= total {
        0
    } else if total - cursor < CHUNK {
        (total - cursor) as nat
    } else {
        CHUNK as nat
    }
}

/// How many of `total` rows the call at `cursor` hands out.
pub fn chunk_size(total: usize, cursor: usize) -> (n: usize)
    ensures
        n == chunk_len(total as nat, cursor as nat),
{
    let remaining: usize = if cursor >= total {
        0
    } else {
        total - cursor
    };
    if remaining < CHUNK {
        remaining
    } else {
        CHUNK
    }
}

/// Tells whether a table function that hands its rows out in one call still has
/// to do so, and notes that it has.
pub fn take_turn(done: &mut bool) -> (first: bool)
    ensures
        first == !*old(done),
        *final(done),
{
    let first: bool = !*done;
    *done = true;
    first
}

/// The rows that the call at `cursor` hands out.
pub open spec fn chunk_of<R>(rows: Seq<R>, cursor: nat) -> Seq<R> {
    rows.subrange(cursor as int, (cursor + chunk_len(rows.len(), cursor)) as int)
}

/// The rows that the calls from `cursor` on hand out, up to the first call that
/// hands out none.
pub open spec fn all_chunks<R>(rows: Seq<R>, cursor: nat) -> Seq<R>
    decreases rows.len() - cursor,
{
    if chunk_len(rows.len(), cursor) == 0 {
        Seq::empty()
    } else {
        chunk_of(rows, cursor) + all_chunks(rows, cursor + chunk_len(rows.len(), cursor))
    }
}

/// Calling until nothing comes hands out every row once, in order.
pub proof fn law_chunks_cover_rows<R>(rows: Seq<R>, cursor: nat)
    requires
        cursor <= rows.len(),
    ensures
        all_chunks(rows, cursor) == rows.subrange(cursor as int, rows.len() as int),
    decreases rows.len() - cursor,
{
    if chunk_len(rows.len(), cursor) == 0 {
        assert(rows.subrange(cursor as int, rows.len() as int) =~= Seq::empty());
    } else {
        let next = cursor + chunk_len(rows.len(), cursor);
        law_chunks_cover_rows(rows, next);
        assert(chunk_of(rows, cursor) + rows.subrange(next as int, rows.len() as int) =~= rows.subrange(
            cursor as int,
            rows.len() as int,
        ));
    }
}

} // verus!
