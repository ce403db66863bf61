//! What the callbacks of a stream are asked, and what their answers mean.

use vstd::prelude::*;

verus! {

/// Where a stream is to be positioned: from its start, from its end, or from where it is.
#[derive(Debug, Clone, Copy, PartialEq, Eq, Structural)]
pub enum Position {
    Start(u64),
    End(i64),
    Current(i64),
}

/// What the callback of a stream is asked.
pub open spec fn seek_request(position: Position) -> (i64, i32) {
    match position {
        Position::Start(offset) => (offset as i64, 0i32),
        Position::Current(offset) => (offset, 1i32),
        Position::End(offset) => (offset, 2i32),
    }
}

/// The offset that the callback gets, and the number that says from where it counts. An offset
/// from the start has to be one that a signed number can tell; a larger one comes out negative.
pub fn seek_arguments(position: Position) -> (r: (i64, i32))
    ensures
        r == seek_request(position),
{
    match position {
        Position::Start(offset) => (#[verifier::truncate] (offset as i64), 0),
        Position::End(offset) => (offset, 2),
        Position::Current(offset) => (offset, 1),
    }
}

/// The number of bytes that a callback answers, or the error code if the answer is negative.
pub fn transferred(answer: isize) -> (r: Result<usize, i32>)
    ensures
        match r {
            Ok(n) => 0 <= answer && n == answer,
            Err(code) => answer < 0 && code == answer as i32,
        },
{
    if answer < 0 {
        Err(#[verifier::truncate] (answer as i32))
    } else {
        Ok(answer as usize)
    }
}

/// The position that a callback answers, or the error code if the answer is negative.
pub fn positioned(answer: i64) -> (r: Result<u64, i32>)
    ensures
        match r {
            Ok(n) => 0 <= answer && n == answer,
            Err(code) => answer < 0 && code == answer as i32,
        },
{
    if answer < 0 {
        Err(#[verifier::truncate] (answer as i32))
    } else {
        Ok(answer as u64)
    }
}

/// Zero counts from the start, one from where the stream is, and two from its end; the offset is
/// handed on as it is, if it fits.
pub proof fn law_seek_request(offset: i64)
    ensures
        0 <= offset ==> seek_request(Position::Start(offset as u64)) == (offset, 0i32),
        seek_request(Position::Current(offset)) == (offset, 1i32),
        seek_request(Position::End(offset)) == (offset, 2i32),
{
}

} // verus!
