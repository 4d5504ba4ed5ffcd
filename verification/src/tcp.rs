//! What the network front end computes: the frame of an answer.

use vstd::prelude::*;
use vstd::string::StringExecFns;

verus! {

/// The line that ends an answer.
pub const EOF_MARKER: &'static str = "<ENSO_EOF>";

/// An answer as it is sent: the answer, a line feed, the marker of the
/// answer's end, and a line feed.
pub fn frame_response(response: String) -> (res: String)
    ensures
        res@ == response@ + "\n"@ + "<ENSO_EOF>"@ + "\n"@,
{
    let mut res = response;
    res.append("\n");
    res.append("<ENSO_EOF>");
    res.append("\n");
    res
}

} // verus!
