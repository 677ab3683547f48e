use vstd::prelude::*;

use crate::chunk::Chunk;

verus! {

/// The line column of a listing entry: the instruction's line, or `None` where it shares the
/// line of the instruction before it (the listing then shows `|`).
pub fn line_marker(chunk: &Chunk, offset: usize) -> (r: Option<usize>)
    requires
        chunk.wf(),
        offset < chunk.code.len(),
    ensures
        r == (if offset > 0 && chunk.line_of(offset as int) == chunk.line_of(offset - 1) {
            None
        } else {
            Some(chunk.line_of(offset as int))
        }),
{
    let line = chunk.get_line(offset);
    if offset > 0 && line == chunk.get_line(offset - 1) {
        None
    } else {
        Some(line)
    }
}

} // verus!
