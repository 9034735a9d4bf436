use vstd::prelude::*;

use crate::download::DownloadStrategy;
use crate::range::Range;

verus! {

/// `range` cut to a file of `file_size` bytes: emptied where it starts at or past the end of
/// the file, shortened where it reaches past it.
pub fn clamp_to_file(range: Range, file_size: usize) -> (r: Range)
    ensures
        r.start_spec() == range.start_spec(),
        r.end_spec() == if range.start_spec() >= file_size {
            range.start_spec()
        } else if range.end_spec() > file_size {
            file_size
        } else {
            range.end_spec()
        },
{
    let mut range = range;
    if range.start() >= file_size {
        range.clear();
    } else if range.end() > file_size {
        let length = file_size - range.start();
        range.set_len(length);
    }
    range
}

/// Whether a file of `file_size` bytes that is entirely at hand can produce all the bytes of
/// `range`: that is so exactly where the range ends within the file.
pub fn range_available_in_file(range: Range, file_size: usize) -> (b: bool)
    ensures
        b == (range.end_spec() <= file_size),
{
    range.end() <= file_size
}

/// The sizes of a read of at most `output_len` bytes from `offset` in a file of `file_size`
/// bytes: the bytes to read, which stop at the end of the file, and the bytes to have
/// downloaded, which add `read_ahead` bytes while streaming, within the file. `None` where
/// `offset` is at or past the end of the file.
pub fn plan_read(
    strategy: DownloadStrategy,
    offset: usize,
    output_len: usize,
    read_ahead: usize,
    file_size: usize,
) -> (plan: Option<(usize, usize)>)
    requires
        offset < file_size && strategy == DownloadStrategy::Streaming ==> (if output_len < file_size
            - offset {
            output_len as int
        } else {
            file_size - offset
        }) + read_ahead <= usize::MAX,
    ensures
        offset >= file_size ==> plan is None,
        offset < file_size ==> (plan matches Some((length, to_request)) && {
            let remaining = file_size - offset;
            &&& length == if output_len < remaining {
                output_len as int
            } else {
                remaining
            }
            &&& to_request == if strategy == DownloadStrategy::RandomAccess {
                length as int
            } else if length + read_ahead < remaining {
                length + read_ahead
            } else {
                remaining
            }
        }),
{
    if offset >= file_size {
        return None;
    }
    let remaining = file_size - offset;
    let length = if output_len < remaining {
        output_len
    } else {
        remaining
    };
    let length_to_request = match strategy {
        DownloadStrategy::RandomAccess => length,
        DownloadStrategy::Streaming => {
            // read ahead of what was asked for
            let wanted = length + read_ahead;
            if wanted < remaining {
                wanted
            } else {
                remaining
            }
        },
    };
    Some((length, length_to_request))
}

} // verus!
