use vstd::prelude::*;

use crate::error::FsError;

verus! {

/// Splits a path into the segments that lead to its parent and its last segment.
///
/// An empty path has no last segment and is refused with `InvalidPath`.
pub fn split_last(path_segments: &[String]) -> (r: Result<(&[String], &String), FsError>)
    ensures
        path_segments@.len() == 0 <==> r is Err,
        r is Err ==> r == Err::<(&[String], &String), FsError>(FsError::InvalidPath),
        r matches Ok((rest, last)) ==> {
            &&& rest@ == path_segments@.drop_last()
            &&& *last == path_segments@.last()
        },
{
    let len = path_segments.len();
    if len == 0 {
        Err(FsError::InvalidPath)
    } else {
        let (rest, tail) = path_segments.split_at(len - 1);
        Ok((rest, &tail[0]))
    }
}

} // verus!
