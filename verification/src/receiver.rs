use vstd::prelude::*;
use vstd::set_lib::set_int_range;

use crate::download::DownloadStatus;
use crate::range::Range;

verus! {

/// The state of the task that receives the data of one request: where the next chunk goes,
/// how many bytes are still expected, and whether the response time is still to be measured.
pub struct DataReceiver {
    /// The position of the next byte to arrive.
    pub data_offset: usize,
    /// The number of bytes still expected.
    pub request_length: usize,
    /// Whether the arrival of the first chunk measures the response time.
    pub measure_ping_time: bool,
}

/// What the receiver does with a chunk of data that arrived.
pub struct ReceivedChunk {
    /// Where the chunk goes in the file.
    pub offset: usize,
    /// Whether the time since the request is to be reported as a response time.
    pub report_response_time: bool,
    /// Whether the server sent more than was asked for.
    pub overrun: bool,
    /// Whether all the bytes asked for have arrived.
    pub done: bool,
}

impl DataReceiver {
    /// The receiver's positions fit in memory.
    pub open spec fn wf(&self) -> bool {
        self.data_offset + self.request_length <= usize::MAX
    }

    /// A receiver for `length` bytes from `offset`. The response time is measured where no
    /// other request was open when this one was sent.
    pub fn new(offset: usize, length: usize, open_requests: usize) -> (r: DataReceiver)
        requires
            offset + length <= usize::MAX,
        ensures
            r.wf(),
            r.data_offset == offset,
            r.request_length == length,
            r.measure_ping_time == (open_requests == 0),
    {
        DataReceiver {
            data_offset: offset,
            request_length: length,
            measure_ping_time: open_requests == 0,
        }
    }

    /// Takes a chunk of `size` bytes: it goes at the current position, which moves past it;
    /// the bytes still expected shrink by its size, or drop to zero where the server sent
    /// more than was asked for. Only the first chunk reports the response time.
    pub fn on_chunk(&mut self, size: usize) -> (chunk: ReceivedChunk)
        requires
            old(self).wf(),
            old(self).data_offset + size <= usize::MAX,
        ensures
            final(self).wf(),
            chunk.offset == old(self).data_offset,
            chunk.report_response_time == old(self).measure_ping_time,
            !final(self).measure_ping_time,
            final(self).data_offset == old(self).data_offset + size,
            chunk.overrun == (old(self).request_length < size),
            final(self).request_length == if old(self).request_length < size {
                0
            } else {
                old(self).request_length - size
            },
            chunk.done == (final(self).request_length == 0),
    {
        let report = self.measure_ping_time;
        self.measure_ping_time = false;
        let offset = self.data_offset;
        self.data_offset = self.data_offset + size;
        let overrun = self.request_length < size;
        if overrun {
            self.request_length = 0;
        } else {
            self.request_length = self.request_length - size;
        }
        ReceivedChunk {
            offset,
            report_response_time: report,
            overrun,
            done: self.request_length == 0,
        }
    }

    /// Ends the reception: the bytes that were expected and did not arrive are no longer
    /// counted as requested, so that they can be asked for again. Returns whether any were
    /// missing.
    pub fn finish(&self, status: &mut DownloadStatus) -> (short: bool)
        requires
            self.wf(),
        ensures
            short == (self.request_length > 0),
            final(status).requested@ == if short {
                old(status).requested@.difference(
                    set_int_range(self.data_offset as int, self.data_offset + self.request_length),
                )
            } else {
                old(status).requested@
            },
            final(status).downloaded == old(status).downloaded,
    {
        if self.request_length > 0 {
            let missing_range = Range::new(self.data_offset, self.request_length);
            proof {
                assert(missing_range.positions() =~= set_int_range(
                    self.data_offset as int,
                    self.data_offset + self.request_length,
                ));
            }
            status.requested.subtract_range(missing_range);
            true
        } else {
            false
        }
    }
}

/// The estimate of the response time from the last response times measured: the one time,
/// the mean of two, or the median of three.
pub open spec fn ping_estimate(times: Seq<usize>) -> int {
    if times.len() == 1 {
        times[0] as int
    } else if times.len() == 2 {
        (times[0] + times[1]) / 2
    } else {
        median3(times[0] as int, times[1] as int, times[2] as int)
    }
}

/// The middle one of three numbers.
pub open spec fn median3(a: int, b: int, c: int) -> int {
    if (a <= b && b <= c) || (c <= b && b <= a) {
        b
    } else if (b <= a && a <= c) || (c <= a && a <= b) {
        a
    } else {
        c
    }
}

/// How many of the three numbers `a`, `b`, `c` are at most `e`.
pub open spec fn count_at_most3(a: int, b: int, c: int, e: int) -> int {
    (if a <= e {
        1int
    } else {
        0
    }) + (if b <= e {
        1int
    } else {
        0
    }) + (if c <= e {
        1int
    } else {
        0
    })
}

/// How many of the three numbers `a`, `b`, `c` are at least `e`.
pub open spec fn count_at_least3(a: int, b: int, c: int, e: int) -> int {
    (if a >= e {
        1int
    } else {
        0
    }) + (if b >= e {
        1int
    } else {
        0
    }) + (if c >= e {
        1int
    } else {
        0
    })
}

/// The estimate from three times is their middle value, whatever their order: it is one of
/// them, at least two of them are at most it, and at least two are at least it.
pub proof fn lemma_ping_estimate_of_three_is_median(times: Seq<usize>)
    requires
        times.len() == 3,
    ensures
        ({
            let (a, b, c, e) = (times[0] as int, times[1] as int, times[2] as int, ping_estimate(times));
            &&& e == a || e == b || e == c
            &&& count_at_most3(a, b, c, e) >= 2
            &&& count_at_least3(a, b, c, e) >= 2
        }),
{
}

/// The estimate from one time is that time, and the estimate from two lies between them and
/// is their mean, rounded down.
pub proof fn lemma_ping_estimate_of_fewer(times: Seq<usize>)
    requires
        1 <= times.len() <= 2,
    ensures
        times.len() == 1 ==> ping_estimate(times) == times[0],
        times.len() == 2 ==> {
            &&& times[0] <= ping_estimate(times) <= times[1] || times[1] <= ping_estimate(times)
                <= times[0]
            &&& times[0] + times[1] - 1 <= 2 * ping_estimate(times) <= times[0] + times[1]
        },
{
}

/// The last response times measured, at most three.
pub struct ResponseTimes {
    times: Vec<usize>,
}

impl ResponseTimes {
    /// The times kept, oldest first.
    pub closed spec fn times_spec(self) -> Seq<usize> {
        self.times@
    }

    /// At most three times are kept.
    #[verifier::type_invariant]
    pub open spec fn wf(self) -> bool {
        self.times_spec().len() <= 3
    }

    /// No time measured yet.
    pub fn new() -> (r: ResponseTimes)
        ensures
            r.times_spec().len() == 0,
    {
        ResponseTimes { times: Vec::new() }
    }

    /// The times kept, oldest first.
    pub fn times(&self) -> (t: &[usize])
        ensures
            t@ == self.times_spec(),
    {
        self.times.as_slice()
    }

    /// Records a new response time, keeps the last three, and returns the new estimate of
    /// the response time (see `ping_estimate`).
    pub fn record(&mut self, response_time_ms: usize) -> (ping_time_ms: usize)
        requires
            old(self).times_spec().len() == 1 ==> old(self).times_spec()[0] + response_time_ms
                <= usize::MAX,
        ensures
            ({
                let all = old(self).times_spec().push(response_time_ms);
                final(self).times_spec() == if all.len() > 3 {
                    all.subrange(all.len() - 3, all.len() as int)
                } else {
                    all
                }
            }),
            ping_time_ms == ping_estimate(final(self).times_spec()),
    {
        proof {
            use_type_invariant(&*self);
        }
        let mut times = Vec::new();
        std::mem::swap(&mut times, &mut self.times);
        let ghost all = times@.push(response_time_ms);
        times.push(response_time_ms);
        // keep at most three
        while times.len() > 3
            invariant
                1 <= all.len() <= 4,
                times@.len() <= all.len(),
                times@.len() >= 3 || times@.len() == all.len(),
                times@ == all.subrange(all.len() - times@.len(), all.len() as int),
            decreases times@.len(),
        {
            times.remove(0);
            proof {
                assert(times@ =~= all.subrange(all.len() - times@.len(), all.len() as int));
            }
        }
        proof {
            if all.len() <= 3 {
                assert(times@ =~= all);
            }
        }
        // the median of up to three
        let ping_time_ms = if times.len() == 1 {
            times[0]
        } else if times.len() == 2 {
            (times[0] + times[1]) / 2
        } else {
            let (a, b, c) = (times[0], times[1], times[2]);
            if (a <= b && b <= c) || (c <= b && b <= a) {
                b
            } else if (b <= a && a <= c) || (c <= a && a <= b) {
                a
            } else {
                c
            }
        };
        self.times = times;
        ping_time_ms
    }
}

} // verus!
