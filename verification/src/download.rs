use vstd::prelude::*;
use vstd::set_lib::set_int_range;

use crate::bytes_be::{read_u32_be, u16_be, u16_be_bytes, u32_be, u32_be_bytes};
use crate::range::Range;
use crate::range_set::RangeSet;

verus! {

/// The minimum size of a block that is requested from the server in one request; this is the
/// block size typically requested while seeking. Smaller requests happen where part of the
/// block is downloaded already.
pub const MINIMUM_DOWNLOAD_SIZE: usize = 1024 * 16;

/// The amount of data requested when a file is opened. Where the file is opened to play from
/// its beginning, the read-ahead amount is requested in addition.
pub const INITIAL_DOWNLOAD_SIZE: usize = 1024 * 16;

/// The most requests that may be pending before more data is pre-fetched. Pending requests
/// share bandwidth, so that too many of them delay the one needed next for playback.
pub const MAX_PREFETCH_REQUESTS: usize = 4;

/// How the downloader orders its requests.
#[derive(Clone, Copy, Debug, PartialEq, Eq)]
pub enum DownloadStrategy {
    /// Fetch what is read, nothing more.
    RandomAccess,
    /// Read ahead of the read position and pre-fetch the rest of the file.
    Streaming,
}

/// A command sent to the downloader of a file.
#[derive(Clone, Copy, Debug, PartialEq, Eq)]
pub enum StreamLoaderCommand {
    /// Fetch a range of the file.
    Fetch(Range),
    /// Optimise the downloads for random access.
    RandomAccessMode,
    /// Optimise the downloads for streaming.
    StreamMode,
    /// Stop loading data for the file.
    Close,
}

/// What the downloader does after a command.
pub enum CommandOutcome {
    /// Send one request per range of the set.
    Request(RangeSet),
    /// Go on.
    Continue,
    /// Stop.
    Stop,
}

/// What part of a file has been requested from the server, and what part has arrived.
pub struct DownloadStatus {
    /// The positions asked for and not known to have failed.
    pub requested: RangeSet,
    /// The positions received.
    pub downloaded: RangeSet,
}

/// `x` rounded down to a multiple of 4.
pub open spec fn align_down4(x: int) -> int {
    x - x % 4
}

/// `x` rounded up to a multiple of 4.
pub open spec fn align_up4(x: int) -> int {
    if x % 4 == 0 {
        x
    } else {
        x + 4 - x % 4
    }
}

/// The positions that a download of `length` bytes from `offset` covers: at least
/// `MINIMUM_DOWNLOAD_SIZE` bytes, cut at the end of the file, and widened at both ends to
/// multiples of 4 as the protocol wants. Nothing where `offset` is past the end of the file.
pub open spec fn download_window(offset: int, length: int, file_size: int) -> Set<int> {
    if offset >= file_size {
        Set::empty()
    } else {
        let wanted = if length < MINIMUM_DOWNLOAD_SIZE {
            MINIMUM_DOWNLOAD_SIZE as int
        } else {
            length
        };
        let end = if offset + wanted > file_size {
            file_size
        } else {
            offset + wanted
        };
        set_int_range(align_down4(offset), align_up4(end))
    }
}

/// What pre-fetching `bytes` more bytes with at most `requests` requests does to a file of
/// `file_size` bytes, of which `downloaded` has arrived and `requested` has been asked for:
/// the positions requested afterwards, and the ranges to request, in order.
///
/// Each step takes the first run of positions that are neither downloaded nor requested,
/// preferring those from `read_position` on, plans the download of at most the bytes still
/// to go from its start (see `download_window`), and counts the bytes of the run used,
/// until no bytes or requests are left or nothing is missing.
pub open spec fn prefetch_plan(
    requested: Set<int>,
    downloaded: Set<int>,
    bytes: int,
    requests: int,
    file_size: int,
    read_position: int,
) -> (Set<int>, Seq<Range>)
    decreases requests,
{
    if bytes <= 0 || requests <= 0 {
        (requested, Seq::empty())
    } else {
        let missing = set_int_range(0, file_size).difference(downloaded).difference(requested);
        let tail = set_int_range(read_position, file_size).intersect(missing);
        let source = if tail == Set::<int>::empty() {
            missing
        } else {
            tail
        };
        if source == Set::<int>::empty() {
            (requested, Seq::empty())
        } else {
            let run = crate::range_set::first_run(source);
            let length = if run.1 - run.0 < bytes {
                run.1 - run.0
            } else {
                bytes
            };
            let fresh = download_window(run.0, length, file_size).difference(downloaded).difference(
                requested,
            );
            let rest = prefetch_plan(
                requested.union(fresh),
                downloaded,
                bytes - length,
                requests - 1,
                file_size,
                read_position,
            );
            (rest.0, crate::range_set::canonical_ranges(fresh) + rest.1)
        }
    }
}

/// Pre-fetching plans only what is missing: every position that a plan adds to the requested
/// ones is neither downloaded nor requested already, and no requested position is dropped.
pub proof fn lemma_prefetch_plans_only_missing(
    requested: Set<int>,
    downloaded: Set<int>,
    bytes: int,
    requests: int,
    file_size: int,
    read_position: int,
)
    ensures
        requested.subset_of(
            prefetch_plan(requested, downloaded, bytes, requests, file_size, read_position).0,
        ),
        prefetch_plan(requested, downloaded, bytes, requests, file_size, read_position).0.difference(
            requested,
        ).disjoint(downloaded),
    decreases requests,
{
    if bytes > 0 && requests > 0 {
        let missing = set_int_range(0, file_size).difference(downloaded).difference(requested);
        let tail = set_int_range(read_position, file_size).intersect(missing);
        let source = if tail == Set::<int>::empty() {
            missing
        } else {
            tail
        };
        if source != Set::<int>::empty() {
            let run = crate::range_set::first_run(source);
            let length = if run.1 - run.0 < bytes {
                run.1 - run.0
            } else {
                bytes
            };
            let window = download_window(run.0, length, file_size);
            let fresh = window.difference(downloaded).difference(requested);
            let next = requested.union(fresh);
            lemma_prefetch_plans_only_missing(
                next,
                downloaded,
                bytes - length,
                requests - 1,
                file_size,
                read_position,
            );
            let plan = prefetch_plan(requested, downloaded, bytes, requests, file_size, read_position);
            let rest = prefetch_plan(
                next,
                downloaded,
                bytes - length,
                requests - 1,
                file_size,
                read_position,
            );
            assert(plan.0 == rest.0);
            assert forall|x: int| plan.0.difference(requested).contains(x) implies !downloaded.contains(
                x,
            ) by {
                if !fresh.contains(x) {
                    assert(rest.0.difference(next).contains(x));
                }
            }
        }
    }
}

/// The packet that asks the server to send the bytes `[offset, offset + length)` of the file
/// `file_id` on channel `channel_id`. Positions are counted in words of 4 bytes.
pub open spec fn range_request_packet_spec(
    channel_id: u16,
    file_id: Seq<u8>,
    offset: int,
    length: int,
) -> Seq<u8> {
    u16_be(channel_id) + seq![0u8, 1u8] + u16_be(0x0000) + u32_be(0x0000_0000) + u32_be(0x0000_9C40)
        + u32_be(0x0002_0000) + file_id + u32_be((offset / 4) as u32) + u32_be(
        ((offset + length) / 4) as u32,
    )
}

/// Appends the bytes of `b` to `data`.
fn extend_bytes(data: &mut Vec<u8>, b: &[u8])
    ensures
        final(data)@ == old(data)@ + b@,
{
    let mut i: usize = 0;
    while i < b.len()
        invariant
            i <= b@.len(),
            data@ == old(data)@ + b@.subrange(0, i as int),
        decreases b@.len() - i,
    {
        data.push(b[i]);
        proof {
            assert(data@ =~= old(data)@ + b@.subrange(0, i + 1));
        }
        i = i + 1;
    }
    proof {
        assert(b@.subrange(0, i as int) =~= b@);
    }
}

/// The packet that asks the server for the bytes `[offset, offset + length)` of the file
/// `file_id` on channel `channel_id`. Both bounds must be multiples of 4.
pub fn range_request_packet(channel_id: u16, file_id: &[u8; 20], offset: usize, length: usize) -> (data:
    Vec<u8>)
    requires
        offset % 4 == 0,
        length % 4 == 0,
        offset + length <= usize::MAX,
    ensures
        data@ == range_request_packet_spec(channel_id, file_id@, offset as int, length as int),
{
    let start = offset / 4;
    let end = (offset + length) / 4;
    let mut data: Vec<u8> = Vec::new();
    extend_bytes(&mut data, &u16_be_bytes(channel_id));
    data.push(0);
    data.push(1);
    extend_bytes(&mut data, &u16_be_bytes(0x0000));
    extend_bytes(&mut data, &u32_be_bytes(0x0000_0000));
    extend_bytes(&mut data, &u32_be_bytes(0x0000_9C40));
    extend_bytes(&mut data, &u32_be_bytes(0x0002_0000));
    extend_bytes(&mut data, file_id);
    extend_bytes(&mut data, &u32_be_bytes(start as u32));
    extend_bytes(&mut data, &u32_be_bytes(end as u32));
    proof {
        assert(data@ =~= range_request_packet_spec(
            channel_id,
            file_id@,
            offset as int,
            length as int,
        ));
    }
    data
}

/// The size of a file, from the header the server sends first: a count of 4-byte words,
/// most significant byte first.
pub fn file_size_from_header(data: &[u8]) -> (size: usize)
    requires
        data@.len() >= 4,
        (data@[0] * 0x100_0000 + data@[1] * 0x1_0000 + data@[2] * 0x100 + data@[3]) * 4 <= usize::MAX,
    ensures
        size == (data@[0] * 0x100_0000 + data@[1] * 0x1_0000 + data@[2] * 0x100 + data@[3]) * 4,
{
    let words = read_u32_be(data);
    words as usize * 4
}

/// The number of bytes to request when a file is opened: `INITIAL_DOWNLOAD_SIZE`, plus
/// `read_ahead` where playback starts at the beginning, rounded up to a multiple of 4.
pub fn initial_data_length(play_from_beginning: bool, read_ahead: usize) -> (length: usize)
    requires
        INITIAL_DOWNLOAD_SIZE + read_ahead + 3 <= usize::MAX,
    ensures
        length == align_up4(
            INITIAL_DOWNLOAD_SIZE + if play_from_beginning {
                read_ahead as int
            } else {
                0
            },
        ),
{
    let mut length = if play_from_beginning {
        INITIAL_DOWNLOAD_SIZE + read_ahead
    } else {
        INITIAL_DOWNLOAD_SIZE
    };
    if length % 4 != 0 {
        length = length + (4 - (length % 4));
    }
    length
}

proof fn lemma_align_down(x: int)
    requires
        x >= 0,
    ensures
        align_down4(x) % 4 == 0,
        x % 4 != 0 ==> align_down4(x) == x - x % 4,
        x % 4 == 0 ==> align_down4(x) == x,
{
}

proof fn lemma_align_up_shift(a: int, b: int)
    requires
        a >= 0,
        b >= 0,
        a % 4 == 0,
    ensures
        a + align_up4(b) == align_up4(a + b),
        b % 4 != 0 ==> align_up4(b) == b + (4 - b % 4),
{
    assert((a + b) % 4 == b % 4);
}

proof fn lemma_window(offset: int, length: int, file_size: int, start: int, end: int)
    requires
        offset < file_size,
        start == align_down4(offset),
        end == align_up4(
            if offset + (if length < MINIMUM_DOWNLOAD_SIZE {
                MINIMUM_DOWNLOAD_SIZE as int
            } else {
                length
            }) > file_size {
                file_size
            } else {
                offset + (if length < MINIMUM_DOWNLOAD_SIZE {
                    MINIMUM_DOWNLOAD_SIZE as int
                } else {
                    length
                })
            },
        ),
    ensures
        download_window(offset, length, file_size) == set_int_range(start, end),
{
}

/// Where `positions` holds the `run` positions from the start of `range` on and not the
/// next one, `range` lies in `positions` exactly when it is no longer than `run`.
proof fn lemma_run_covers(positions: Set<int>, range: Range, run: int)
    requires
        run >= 0,
        range.start_spec() <= range.end_spec(),
        forall|k: int| 0 <= k < run ==> #[trigger] positions.contains(range.start_spec() + k),
        !positions.contains(range.start_spec() + run),
    ensures
        (range.len_spec() <= run) == range.positions().subset_of(positions),
{
    if range.len_spec() <= run {
        assert forall|x: int| range.positions().contains(x) implies positions.contains(x) by {
            assert(positions.contains(range.start_spec() + (x - range.start_spec())));
        }
    } else {
        assert(range.positions().contains(range.start_spec() + run));
    }
}

impl DownloadStatus {
    /// A status with nothing requested and nothing downloaded.
    pub fn new() -> (s: DownloadStatus)
        ensures
            s.requested@ == Set::<int>::empty(),
            s.downloaded@ == Set::<int>::empty(),
    {
        DownloadStatus { requested: RangeSet::new(), downloaded: RangeSet::new() }
    }

    /// Plans the download of `length` bytes from `offset` of a file of `file_size` bytes:
    /// returns the positions of the download window (see `download_window`) that are neither
    /// downloaded nor requested yet, and marks them as requested. The caller sends one request
    /// per range of the result.
    pub fn plan_download(&mut self, offset: usize, length: usize, file_size: usize) -> (to_request:
        RangeSet)
        requires
            offset < file_size ==> offset + (if length < MINIMUM_DOWNLOAD_SIZE {
                MINIMUM_DOWNLOAD_SIZE as int
            } else {
                length as int
            }) <= usize::MAX,
            offset < file_size ==> file_size + 3 <= usize::MAX,
        ensures
            to_request@ == download_window(offset as int, length as int, file_size as int).difference(
                old(self).downloaded@,
            ).difference(old(self).requested@),
            final(self).requested@ == old(self).requested@.union(to_request@),
            final(self).downloaded == old(self).downloaded,
    {
        let ghost (offset0, length0) = (offset as int, length as int);
        let mut offset = offset;
        let mut length = length;
        if length < MINIMUM_DOWNLOAD_SIZE {
            length = MINIMUM_DOWNLOAD_SIZE;
        }
        // keep within the file's bounds, and align by 4 as the protocol wants
        if offset >= file_size {
            let none = RangeSet::new();
            proof {
                assert(none@ =~= download_window(offset0, length0, file_size as int).difference(
                    self.downloaded@,
                ).difference(self.requested@));
                assert(self.requested@ =~= self.requested@.union(none@));
            }
            return none;
        }
        if offset + length > file_size {
            length = file_size - offset;
        }
        let ghost end = offset + length;
        if offset % 4 != 0 {
            length = length + offset % 4;
            offset = offset - offset % 4;
        }
        proof {
            lemma_align_down(offset0);
        }
        if length % 4 != 0 {
            length = length + (4 - (length % 4));
        }
        proof {
            lemma_align_up_shift(offset as int, (end - offset) as int);
            lemma_window(offset0, length0, file_size as int, offset as int, (offset + length) as int);
        }
        let window = Range::new(offset, length);
        let mut to_request = RangeSet::new();
        to_request.add_range(window);
        to_request.subtract_range_set(&self.downloaded);
        to_request.subtract_range_set(&self.requested);
        self.requested.add_range_set(&to_request);
        proof {
            assert(window.positions() =~= set_int_range(offset as int, (offset + length) as int));
            assert(to_request@ =~= download_window(offset0, length0, file_size as int).difference(
                old(self).downloaded@,
            ).difference(old(self).requested@));
        }
        to_request
    }

    /// Records the arrival of `length` bytes from `offset`. Returns whether the file of
    /// `file_size` bytes is then downloaded completely.
    pub fn record_received(&mut self, offset: usize, length: usize, file_size: usize) -> (complete: bool)
        requires
            offset + length <= usize::MAX,
        ensures
            final(self).downloaded@ == old(self).downloaded@.union(
                set_int_range(offset as int, offset + length),
            ),
            final(self).requested == old(self).requested,
            complete == set_int_range(0, file_size as int).subset_of(final(self).downloaded@),
    {
        let received = Range::new(offset, length);
        proof {
            assert(received.positions() =~= set_int_range(offset as int, offset + length));
        }
        self.downloaded.add_range(received);
        let available = self.downloaded.contained_length_from_value(0);
        proof {
            if available < file_size {
                assert(set_int_range(0, file_size as int).contains(available as int));
                assert(!self.downloaded@.contains(0 + available));
            } else {
                assert forall|x: int| set_int_range(0, file_size as int).contains(x) implies self.downloaded@.contains(x) by {
                    assert(self.downloaded@.contains(0 + x));
                }
            }
        }
        available >= file_size
    }

    /// The number of bytes requested and not downloaded yet.
    pub fn pending_bytes(&self) -> (pending: usize)
        ensures
            self.requested@.difference(self.downloaded@).finite(),
            pending == self.requested@.difference(self.downloaded@).len(),
    {
        self.requested.difference(&self.downloaded).len()
    }

    /// The positions of `[offset, offset + length)` that are neither downloaded nor requested.
    pub fn missing_in(&self, offset: usize, length: usize) -> (missing: RangeSet)
        requires
            offset + length <= usize::MAX,
        ensures
            missing@ == set_int_range(offset as int, offset + length).difference(
                self.downloaded@,
            ).difference(self.requested@),
    {
        let wanted = Range::new(offset, length);
        let mut missing = RangeSet::new();
        missing.add_range(wanted);
        missing.subtract_range_set(&self.downloaded);
        missing.subtract_range_set(&self.requested);
        proof {
            assert(missing@ =~= set_int_range(offset as int, offset + length).difference(
                self.downloaded@,
            ).difference(self.requested@));
        }
        missing
    }

    /// Whether every position of `range` is downloaded.
    pub fn is_downloaded(&self, range: Range) -> (b: bool)
        ensures
            b == range.positions().subset_of(self.downloaded@),
    {
        let available = self.downloaded.contained_length_from_value(range.start());
        proof {
            lemma_run_covers(self.downloaded@, range, available as int);
        }
        range.len() <= available
    }

    /// Whether some position of `range` is neither downloaded nor requested, so that the
    /// range has to be requested again.
    pub fn needs_refetch(&self, range: Range) -> (b: bool)
        ensures
            b == !range.positions().subset_of(self.downloaded@.union(self.requested@)),
    {
        let known = self.downloaded.union(&self.requested);
        let available = known.contained_length_from_value(range.start());
        proof {
            lemma_run_covers(known@, range, available as int);
        }
        range.len() > available
    }

    /// Plans the pre-fetching of `bytes` more bytes of a file of `file_size` bytes with at most
    /// `max_requests` requests, data from `read_position` on first (see `prefetch_plan`): marks
    /// the planned positions as requested and returns the ranges to request, in order. The read
    /// position matters only where there is something to plan, and may then not lie past the
    /// end of the file.
    pub fn plan_prefetch(
        &mut self,
        bytes: usize,
        max_requests: usize,
        file_size: usize,
        read_position: usize,
    ) -> (to_request: Vec<Range>)
        requires
            bytes > 0 && max_requests > 0 ==> read_position <= file_size && file_size
                + MINIMUM_DOWNLOAD_SIZE <= usize::MAX,
        ensures
            (final(self).requested@, to_request@) == prefetch_plan(
                old(self).requested@,
                old(self).downloaded@,
                bytes as int,
                max_requests as int,
                file_size as int,
                read_position as int,
            ),
            final(self).downloaded == old(self).downloaded,
            old(self).requested@.subset_of(final(self).requested@),
            crate::range_set::seq_positions(to_request@) == final(self).requested@.difference(
                old(self).requested@,
            ),
            crate::range_set::seq_positions(to_request@).disjoint(old(self).downloaded@),
    {
        let ghost goal = prefetch_plan(
            self.requested@,
            self.downloaded@,
            bytes as int,
            max_requests as int,
            file_size as int,
            read_position as int,
        );
        let mut to_request: Vec<Range> = Vec::new();
        proof {
            crate::range_set::lemma_positions_concat(to_request@, to_request@);
            assert(crate::range_set::seq_positions(to_request@) =~= Set::<int>::empty());
            assert(self.requested@.difference(old(self).requested@) =~= Set::<int>::empty());
        }
        if bytes == 0 || max_requests == 0 {
            return to_request;
        }
        let mut bytes_to_go = bytes;
        let mut requests_to_go = max_requests;
        while bytes_to_go > 0 && requests_to_go > 0
            invariant
                self.downloaded == old(self).downloaded,
                goal == prefetch_plan(
                    old(self).requested@,
                    old(self).downloaded@,
                    bytes as int,
                    max_requests as int,
                    file_size as int,
                    read_position as int,
                ),
                read_position <= file_size,
                file_size + MINIMUM_DOWNLOAD_SIZE <= usize::MAX,
                old(self).requested@.subset_of(self.requested@),
                crate::range_set::seq_positions(to_request@) == self.requested@.difference(
                    old(self).requested@,
                ),
                crate::range_set::seq_positions(to_request@).disjoint(old(self).downloaded@),
                goal == ({
                    let rest = prefetch_plan(
                        self.requested@,
                        self.downloaded@,
                        bytes_to_go as int,
                        requests_to_go as int,
                        file_size as int,
                        read_position as int,
                    );
                    (rest.0, to_request@ + rest.1)
                }),
            decreases requests_to_go,
        {
            // determine what is still missing
            let whole = Range::new(0, file_size);
            let mut missing = RangeSet::new();
            missing.add_range(whole);
            missing.subtract_range_set(&self.downloaded);
            missing.subtract_range_set(&self.requested);
            // download data from after the current read position first
            let mut tail = RangeSet::new();
            let after = Range::new(read_position, file_size - read_position);
            tail.add_range(after);
            let tail_end = tail.intersection(&missing);
            let ghost m = set_int_range(0, file_size as int).difference(self.downloaded@).difference(
                self.requested@,
            );
            let ghost t = set_int_range(read_position as int, file_size as int).intersect(m);
            proof {
                assert(whole.positions() =~= set_int_range(0, file_size as int));
                assert(after.positions() =~= set_int_range(read_position as int, file_size as int));
                assert(missing@ =~= m);
                assert(tail_end@ =~= t);
            }
            let range = if !tail_end.is_empty() {
                proof {
                    use_type_invariant(&tail_end);
                    crate::range_set::lemma_first_range_is_first_run(tail_end);
                }
                tail_end.get(0)
            } else if !missing.is_empty() {
                proof {
                    use_type_invariant(&missing);
                    crate::range_set::lemma_first_range_is_first_run(missing);
                }
                missing.get(0)
            } else {
                // everything is downloaded or requested
                proof {
                    assert(t == Set::<int>::empty());
                    assert(m == Set::<int>::empty());
                    assert(prefetch_plan(
                        self.requested@,
                        self.downloaded@,
                        bytes_to_go as int,
                        requests_to_go as int,
                        file_size as int,
                        read_position as int,
                    ) == (self.requested@, Seq::<Range>::empty()));
                    assert(to_request@ + Seq::<Range>::empty() =~= to_request@);
                }
                return to_request;
            };
            let ghost source = if t == Set::<int>::empty() {
                m
            } else {
                t
            };
            proof {
                let run = crate::range_set::first_run(source);
                assert(run == (range.start_spec() as int, range.end_spec() as int));
                assert(crate::range_set::is_first_run(source, run));
                assert(source.contains(run.1 - 1));
            }
            let offset = range.start();
            let length = if range.len() < bytes_to_go {
                range.len()
            } else {
                bytes_to_go
            };
            let ghost before = self.requested@;
            let fresh = self.plan_download(offset, length, file_size);
            proof {
                use_type_invariant(&fresh);
                crate::range_set::lemma_ranges_canonical(fresh);
            }
            let ghost done = to_request@;
            let mut fresh_ranges = fresh.into_ranges();
            to_request.append(&mut fresh_ranges);
            proof {
                let rest = prefetch_plan(
                    self.requested@,
                    self.downloaded@,
                    (bytes_to_go - length) as int,
                    (requests_to_go - 1) as int,
                    file_size as int,
                    read_position as int,
                );
                assert(self.requested@ == before.union(fresh@));
                assert(to_request@ + rest.1 =~= done + (crate::range_set::canonical_ranges(fresh@) + rest.1));
                crate::range_set::lemma_positions_concat(done, fresh.ranges_spec());
                assert(to_request@ == done + fresh.ranges_spec());
                assert(crate::range_set::seq_positions(to_request@) =~= self.requested@.difference(
                    old(self).requested@,
                ));
            }
            requests_to_go = requests_to_go - 1;
            bytes_to_go = bytes_to_go - length;
        }
        proof {
            assert(to_request@ + Seq::<Range>::empty() =~= to_request@);
        }
        to_request
    }

    /// The number of bytes that can be read from `offset` on, at most `length`: the bytes
    /// `[offset, offset + n)` are downloaded, and where `n < length` the byte at `offset + n`
    /// is not.
    pub fn readable_length(&self, offset: usize, length: usize) -> (n: usize)
        ensures
            n <= length,
            forall|k: int| 0 <= k < n ==> #[trigger] self.downloaded@.contains(offset + k),
            n < length ==> !self.downloaded@.contains(offset + n),
    {
        let available = self.downloaded.contained_length_from_value(offset);
        if length < available {
            length
        } else {
            available
        }
    }

    /// Plans the pre-fetching that the downloader does when it wakes up: while streaming, with
    /// fewer than `MAX_PREFETCH_REQUESTS` requests open and fewer than `desired_pending_bytes`
    /// bytes requested and not downloaded, it pre-fetches the difference with the requests it
    /// has left (see `plan_prefetch`); only then may the read position not lie past the end of
    /// the file. Otherwise it plans nothing, wherever the read position lies.
    pub fn plan_poll_prefetch(
        &mut self,
        strategy: DownloadStrategy,
        open_requests: usize,
        desired_pending_bytes: usize,
        file_size: usize,
        read_position: usize,
    ) -> (to_request: Vec<Range>)
        requires
            strategy == DownloadStrategy::Streaming && open_requests < MAX_PREFETCH_REQUESTS
                && old(self).requested@.difference(old(self).downloaded@).len()
                < desired_pending_bytes ==> read_position <= file_size && file_size
                + MINIMUM_DOWNLOAD_SIZE <= usize::MAX,
        ensures
            old(self).requested@.difference(old(self).downloaded@).finite(),
            ({
                let pending = old(self).requested@.difference(old(self).downloaded@).len() as int;
                if strategy == DownloadStrategy::Streaming && open_requests < MAX_PREFETCH_REQUESTS
                    && pending < desired_pending_bytes {
                    (final(self).requested@, to_request@) == prefetch_plan(
                        old(self).requested@,
                        old(self).downloaded@,
                        desired_pending_bytes - pending,
                        MAX_PREFETCH_REQUESTS - open_requests,
                        file_size as int,
                        read_position as int,
                    )
                } else {
                    final(self).requested == old(self).requested && to_request@.len() == 0
                }
            }),
            final(self).downloaded == old(self).downloaded,
            old(self).requested@.subset_of(final(self).requested@),
            crate::range_set::seq_positions(to_request@) == final(self).requested@.difference(
                old(self).requested@,
            ),
            crate::range_set::seq_positions(to_request@).disjoint(old(self).downloaded@),
    {
        let pending_now = self.pending_bytes();
        if let DownloadStrategy::Streaming = strategy {
            let max_requests_to_send = MAX_PREFETCH_REQUESTS - if open_requests < MAX_PREFETCH_REQUESTS {
                open_requests
            } else {
                MAX_PREFETCH_REQUESTS
            };
            if max_requests_to_send > 0 {
                let bytes_pending = pending_now;
                if bytes_pending < desired_pending_bytes {
                    return self.plan_prefetch(
                        desired_pending_bytes - bytes_pending,
                        max_requests_to_send,
                        file_size,
                        read_position,
                    );
                }
            }
        }
        let nothing: Vec<Range> = Vec::new();
        proof {
            assert(crate::range_set::seq_positions(nothing@) =~= Set::<int>::empty());
            assert(self.requested@.difference(old(self).requested@) =~= Set::<int>::empty());
        }
        nothing
    }

    /// Handles a command sent to the downloader: a fetch plans the download of the range (see
    /// `plan_download`), the two modes set `strategy`, and closing stops the downloader.
    pub fn apply_command(
        &mut self,
        command: StreamLoaderCommand,
        strategy: &mut DownloadStrategy,
        file_size: usize,
    ) -> (outcome: CommandOutcome)
        requires
            match command {
                StreamLoaderCommand::Fetch(r) => r.start_spec() < file_size ==> r.start_spec()
                    + MINIMUM_DOWNLOAD_SIZE <= usize::MAX && file_size + 3 <= usize::MAX,
                _ => true,
            },
        ensures
            final(self).downloaded == old(self).downloaded,
            match command {
                StreamLoaderCommand::Fetch(range) => {
                    &&& outcome matches CommandOutcome::Request(to_request)
                    &&& to_request@ == download_window(
                        range.start_spec() as int,
                        range.len_spec(),
                        file_size as int,
                    ).difference(old(self).downloaded@).difference(old(self).requested@)
                    &&& final(self).requested@ == old(self).requested@.union(to_request@)
                    &&& *final(strategy) == *old(strategy)
                },
                StreamLoaderCommand::RandomAccessMode => {
                    &&& outcome == CommandOutcome::Continue
                    &&& *final(strategy) == DownloadStrategy::RandomAccess
                    &&& final(self).requested == old(self).requested
                },
                StreamLoaderCommand::StreamMode => {
                    &&& outcome == CommandOutcome::Continue
                    &&& *final(strategy) == DownloadStrategy::Streaming
                    &&& final(self).requested == old(self).requested
                },
                StreamLoaderCommand::Close => {
                    &&& outcome == CommandOutcome::Stop
                    &&& *final(strategy) == *old(strategy)
                    &&& final(self).requested == old(self).requested
                },
            },
    {
        match command {
            StreamLoaderCommand::Fetch(request) => {
                let to_request = self.plan_download(request.start(), request.len(), file_size);
                CommandOutcome::Request(to_request)
            },
            StreamLoaderCommand::RandomAccessMode => {
                *strategy = DownloadStrategy::RandomAccess;
                CommandOutcome::Continue
            },
            StreamLoaderCommand::StreamMode => {
                *strategy = DownloadStrategy::Streaming;
                CommandOutcome::Continue
            },
            StreamLoaderCommand::Close => CommandOutcome::Stop,
        }
    }
}

} // verus!
