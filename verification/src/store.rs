//! The channel store: the per-transfer state machines that drive the
//! platform's four transport operations (create a channel, post a chunk
//! message, list messages before a cursor, fetch attachment bytes).  The
//! transport calls themselves happen outside; each machine here decides
//! every step, keeps the ordering invariants and records the progress
//! samples a transfer publishes.

use vstd::prelude::*;

use crate::StoreError;

use crate::codec::{base64_of, encode, split, split_bytes};
use crate::naming::{all_digits, chunk_name_spec, dec_digits, digits_value, fmt_u64, lemma_chunk_name_round_trip, make_chunk_name, parse_u64, parsed_index};
use crate::progress::{lemma_percent_monotonic, percent_of, progress_percent};
use vstd::arithmetic::div_mod::{lemma_div_by_multiple, lemma_div_is_ordered};

verus! {

/// Opaque address of the channel that holds one object's chunks.  One
/// handle names exactly one object; losing the handle loses the object.
#[derive(Clone, Copy, Debug, PartialEq, Eq, Structural)]
pub struct ChannelHandle {
    pub id: u64,
}

impl ChannelHandle {
    /// Read a handle from the decimal text callers present.  Succeeds
    /// exactly on a non-empty digit string whose value fits a `u64`.
    pub fn parse(s: &Vec<u8>) -> (r: Option<ChannelHandle>)
        ensures
            r matches Some(h) ==> s@.len() > 0 && all_digits(s@) && digits_value(s@)
                == h.id as int,
            r is None ==> (s@.len() == 0 || !all_digits(s@) || digits_value(s@)
                > u64::MAX as int),
    {
        match parse_u64(s) {
            Some(id) => Some(ChannelHandle { id }),
            None => None,
        }
    }

    /// The decimal text of the handle, as an external index stores it.
    pub fn to_text(&self) -> (r: Vec<u8>)
        ensures
            r@ == dec_digits(self.id as nat),
    {
        fmt_u64(self.id)
    }
}

/// One attachment as the listing operation reports it: its file name,
/// which carries the ordering key, and the URL its bytes are fetched by.
pub struct Attachment {
    pub name: Vec<u8>,
    pub url: Vec<u8>,
}

/// One transport message: an id usable as the next pagination cursor and
/// at most one attachment.
pub struct MessageMeta {
    pub id: u64,
    pub attachment: Option<Attachment>,
}

/// Drains a channel's full history through the transport's only listing
/// operation: up to `page_limit` messages at a time, newest first,
/// strictly before a cursor.  Every page is accumulated; the single
/// global reversal at the end restores chronological order, which by
/// construction of the upload is ascending sequence-index order.
pub struct Pagination {
    pub collected: Vec<MessageMeta>,
    pub cursor: Option<u64>,
    pub done: bool,
    pub page_limit: usize,
}

impl Pagination {
    /// Start listing from the newest message: no cursor yet.
    pub fn new(page_limit: usize) -> (r: Pagination)
        requires
            page_limit > 0,
        ensures
            r.collected@ == Seq::<MessageMeta>::empty(),
            r.cursor is None,
            !r.done,
            r.page_limit == page_limit,
    {
        Pagination { collected: Vec::new(), cursor: None, done: false, page_limit }
    }

    /// Accept one page exactly as the transport returned it.  The page is
    /// appended whole; a short or empty page means the history is
    /// exhausted, otherwise the cursor advances to the oldest message of
    /// the page.
    pub fn feed_page(&mut self, page: Vec<MessageMeta>)
        requires
            !old(self).done,
            page@.len() <= old(self).page_limit,
        ensures
            final(self).collected@ == old(self).collected@ + page@,
            final(self).done == (page@.len() < old(self).page_limit),
            final(self).page_limit == old(self).page_limit,
            page@.len() > 0 ==> final(self).cursor == Some(page@.last().id),
            page@.len() == 0 ==> final(self).cursor == old(self).cursor,
    {
        let n: usize = page.len();
        if n > 0 {
            self.cursor = Some(page[n - 1].id);
        }
        if n < self.page_limit {
            self.done = true;
        }
        let mut page = page;
        self.collected.append(&mut page);
    }

    /// Restore chronological order: one global reversal after listing has
    /// finished.  Reversing per page instead would corrupt the output.
    pub fn into_history(self) -> (r: Vec<MessageMeta>)
        requires
            self.done,
        ensures
            r@ == self.collected@.reverse(),
    {
        let mut rest = self.collected;
        let ghost orig = rest@;
        let mut out: Vec<MessageMeta> = Vec::new();
        while rest.len() > 0
            invariant
                rest@ == orig.take(rest@.len() as int),
                out@.len() == orig.len() - rest@.len(),
                forall|i: int| 0 <= i < out@.len() ==> out@[i] == orig[orig.len() - 1 - i],
            decreases rest.len(),
        {
            proof {
                assert(rest@.drop_last() =~= orig.take(rest@.len() - 1));
            }
            let m = rest.pop().unwrap();
            out.push(m);
        }
        proof {
            assert(out@ =~= orig.reverse());
        }
        out
    }
}

/// Reversing a history drained from a transport that lists newest-first
/// yields exactly the original posting order, not page order.
pub proof fn lemma_pagination_reversal(pg: Pagination, posting: Seq<MessageMeta>)
    requires
        pg.collected@ == posting.reverse(),
    ensures
        pg.collected@.reverse() == posting,
{
    assert(posting.reverse().reverse() =~= posting);
}

/// How many raw bytes the first `k` chunks of `b` under cap `bound`
/// cover together.
pub open spec fn raw_prefix(b: Seq<u8>, bound: int, k: int) -> int {
    split_bytes(b, bound).take(k).flatten().len() as int
}

/// One more chunk covers exactly that chunk's bytes in addition.
pub proof fn lemma_raw_prefix_step(b: Seq<u8>, bound: int, k: int)
    requires
        0 <= k < split_bytes(b, bound).len(),
    ensures
        raw_prefix(b, bound, k + 1) == raw_prefix(b, bound, k) + split_bytes(b, bound)[k].len(),
{
    let s = split_bytes(b, bound);
    assert(s.take(k + 1) =~= s.take(k).push(s[k]));
    s.take(k).lemma_flatten_push(s[k]);
}

/// Covered bytes only grow as chunks are acknowledged.
pub proof fn lemma_raw_prefix_mono(b: Seq<u8>, bound: int, k1: int, k2: int)
    requires
        0 <= k1 <= k2 <= split_bytes(b, bound).len(),
    ensures
        raw_prefix(b, bound, k1) <= raw_prefix(b, bound, k2),
    decreases k2 - k1,
{
    if k1 < k2 {
        lemma_raw_prefix_mono(b, bound, k1, k2 - 1);
        lemma_raw_prefix_step(b, bound, k2 - 1);
    }
}

/// All chunks together cover the whole object.
pub proof fn lemma_raw_prefix_full(b: Seq<u8>, bound: int)
    requires
        bound > 0,
    ensures
        raw_prefix(b, bound, split_bytes(b, bound).len() as int) == b.len(),
{
    let s = split_bytes(b, bound);
    assert(s.take(s.len() as int) =~= s);
    crate::codec::lemma_split_bytes_flatten(b, bound);
}

/// One chunk message ready to post: the attachment name carrying the
/// ordering key, the encoded body, and how many raw bytes it stands for.
pub struct PostItem {
    pub name: Vec<u8>,
    pub body: Vec<u8>,
    pub raw_len: usize,
}

/// Where a transfer stands: still moving chunks, finished whole, or
/// stopped by a failure.
#[derive(Clone, Copy, Debug, PartialEq, Eq, Structural)]
pub enum TransferStatus {
    Sending,
    Completed,
    Aborted,
}

/// The upload state machine.  The channel is created first (a transport
/// step of the caller); chunks are then posted strictly one after the
/// other, in ascending index order, each awaited before the next, so
/// that message-creation order equals sequence order.  After each
/// acknowledged post the machine yields the cumulative progress sample;
/// a failed post yields the sentinel `0` and stops the machine.
pub struct Upload {
    pub handle: ChannelHandle,
    pub items: Vec<PostItem>,
    pub total_bytes: usize,
    pub bound: usize,
    pub sent_bytes: usize,
    pub next: usize,
    pub published: Vec<u32>,
    pub status: TransferStatus,
    pub object: Ghost<Seq<u8>>,
    pub stem: Ghost<Seq<u8>>,
}

impl Upload {
    /// The raw slices this upload posts, in order.
    pub open spec fn slices(self) -> Seq<Seq<u8>> {
        split_bytes(self.object@, self.bound as int)
    }

    /// The machine's invariant: the plan is faithful to the object, the
    /// progress record matches the acknowledged prefix, and the status
    /// agrees with how far the machine came.
    pub open spec fn wf(self) -> bool {
        &&& self.bound > 0
        &&& self.total_bytes == self.object@.len()
        &&& self.items@.len() == self.slices().len()
        &&& (forall|j: int|
            0 <= j < self.items@.len() ==> {
                let it = #[trigger] self.items@[j];
                &&& it.body@ == base64_of(self.slices()[j])
                &&& it.name@ == chunk_name_spec(self.stem@, j as nat)
                &&& it.raw_len == self.slices()[j].len()
            })
        &&& self.next <= self.items@.len()
        &&& self.sent_bytes as int == raw_prefix(self.object@, self.bound as int, self.next as int)
        &&& (self.status is Sending ==> self.next < self.items@.len())
        &&& (self.status is Completed ==> self.next == self.items@.len())
        &&& (self.status is Aborted ==> self.published@.len() == self.next + 1
            && self.published@.last() == 0)
        &&& (!(self.status is Aborted) ==> self.published@.len() == self.next)
        &&& (forall|j: int|
            0 <= j < self.next ==> (#[trigger] self.published@[j]) as int == percent_of(
                raw_prefix(self.object@, self.bound as int, j + 1),
                self.total_bytes as int,
            ))
    }

    /// Plan an upload of `bytes` into the channel behind `handle`: split
    /// under `bound`, encode every chunk, name it `{stem}_{index}.txt`.
    /// An empty object is valid and completes with no messages at all.
    pub fn start(handle: ChannelHandle, bytes: &Vec<u8>, stem: &Vec<u8>, bound: usize) -> (u:
        Upload)
        requires
            bound > 0,
            4 * ((bound as int + 2) / 3) <= usize::MAX as int,
        ensures
            u.wf(),
            u.handle == handle,
            u.object@ == bytes@,
            u.stem@ == stem@,
            u.bound == bound,
            u.total_bytes == bytes@.len(),
            u.next == 0,
            u.published@ == Seq::<u32>::empty(),
            u.status == (if bytes@.len() == 0 {
                TransferStatus::Completed
            } else {
                TransferStatus::Sending
            }),
    {
        let chunks = split(bytes, bound);
        proof {
            crate::codec::lemma_split_bytes_sizes(bytes@, bound as int);
            assert forall|j: int| 0 <= j < chunks@.len() implies (#[trigger] chunks@[j]).payload@
                == split_bytes(bytes@, bound as int)[j] by {
                assert(chunks@[j].payload@ == crate::codec::payloads(chunks@)[j]);
            }
        }
        let n: usize = chunks.len();
        let mut items: Vec<PostItem> = Vec::new();
        let mut i: usize = 0;
        while i < n
            invariant
                i <= n,
                n == chunks@.len(),
                bound > 0,
                4 * ((bound as int + 2) / 3) <= usize::MAX as int,
                forall|j: int|
                    0 <= j < n ==> (#[trigger] chunks@[j]).payload@ == split_bytes(
                        bytes@,
                        bound as int,
                    )[j] && chunks@[j].index == j && chunks@[j].payload@.len() <= bound,
                items@.len() == i,
                forall|j: int|
                    0 <= j < i ==> {
                        let it = #[trigger] items@[j];
                        &&& it.body@ == base64_of(split_bytes(bytes@, bound as int)[j])
                        &&& it.name@ == chunk_name_spec(stem@, j as nat)
                        &&& it.raw_len == split_bytes(bytes@, bound as int)[j].len()
                    },
            decreases n - i,
        {
            let c = &chunks[i];
            proof {
                lemma_div_is_ordered(c.payload@.len() as int + 2, bound as int + 2, 3);
            }
            let e = encode(c);
            let name = make_chunk_name(stem, i as u64);
            let raw_len: usize = c.payload.len();
            items.push(PostItem { name, body: e.body, raw_len });
            i = i + 1;
        }
        let status = if n == 0 {
            TransferStatus::Completed
        } else {
            TransferStatus::Sending
        };
        proof {
            crate::codec::lemma_split_bytes_count(bytes@, bound as int);
            if bytes@.len() == 0 {
                lemma_basic_div_fact(bound as int);
            } else {
                lemma_count_positive(bytes@.len() as int, bound as int);
            }
            assert(split_bytes(bytes@, bound as int).take(0) =~= Seq::<Seq<u8>>::empty());
        }
        Upload {
            handle,
            items,
            total_bytes: bytes.len(),
            bound,
            sent_bytes: 0,
            next: 0,
            published: Vec::new(),
            status,
            object: Ghost(bytes@),
            stem: Ghost(stem@),
        }
    }

    /// What to post next, while the upload is still sending.
    pub fn next_item(&self) -> (r: Option<&PostItem>)
        requires
            self.wf(),
        ensures
            match r {
                Some(item) => self.status is Sending && *item == self.items@[self.next as int],
                None => !(self.status is Sending),
            },
    {
        match self.status {
            TransferStatus::Sending => Some(&self.items[self.next]),
            _ => None,
        }
    }

    /// Record that the transport acknowledged the chunk at `next` and
    /// yield the cumulative sample to publish: bytes covered so far out
    /// of the whole object.  Acknowledging the last chunk completes the
    /// transfer, with a final sample of exactly 100.
    pub fn on_post_ok(&mut self) -> (sample: u32)
        requires
            old(self).wf(),
            old(self).status is Sending,
        ensures
            final(self).wf(),
            final(self).handle == old(self).handle,
            final(self).items@ == old(self).items@,
            final(self).object == old(self).object,
            final(self).stem == old(self).stem,
            final(self).bound == old(self).bound,
            final(self).total_bytes == old(self).total_bytes,
            final(self).next == old(self).next + 1,
            final(self).published@ == old(self).published@.push(sample),
            sample as int == percent_of(
                raw_prefix(old(self).object@, old(self).bound as int, old(self).next + 1),
                old(self).total_bytes as int,
            ),
            sample <= 100,
            final(self).status == (if old(self).next + 1 == old(self).items@.len() {
                TransferStatus::Completed
            } else {
                TransferStatus::Sending
            }),
    {
        proof {
            if self.object@.len() == 0 {
                assert(self.slices() =~= Seq::<Seq<u8>>::empty());
            }
            lemma_raw_prefix_step(self.object@, self.bound as int, self.next as int);
            lemma_raw_prefix_mono(
                self.object@,
                self.bound as int,
                self.next as int + 1,
                self.slices().len() as int,
            );
            lemma_raw_prefix_full(self.object@, self.bound as int);
        }
        let n: usize = self.items.len();
        let raw = self.items[self.next].raw_len;
        self.sent_bytes = self.sent_bytes + raw;
        let sample = progress_percent(self.sent_bytes as u64, self.total_bytes as u64);
        self.published.push(sample);
        self.next = self.next + 1;
        if self.next == n {
            self.status = TransferStatus::Completed;
        }
        sample
    }

    /// Record a failed post: the sentinel failure sample `0` is recorded
    /// and the transfer stops, surfacing `TransportPostError`.  Chunks
    /// already posted stay in the channel; an aborted machine accepts no
    /// further step, so nothing follows the sentinel.
    pub fn on_post_err(&mut self) -> (r: StoreError)
        requires
            old(self).wf(),
            old(self).status is Sending,
        ensures
            final(self).wf(),
            final(self).handle == old(self).handle,
            final(self).items@ == old(self).items@,
            final(self).object == old(self).object,
            final(self).stem == old(self).stem,
            final(self).bound == old(self).bound,
            final(self).total_bytes == old(self).total_bytes,
            final(self).next == old(self).next,
            final(self).published@ == old(self).published@.push(0),
            final(self).status is Aborted,
            r == StoreError::TransportPostError,
    {
        self.status = TransferStatus::Aborted;
        self.published.push(0);
        StoreError::TransportPostError
    }
}

/// Zero bytes make zero chunks.
proof fn lemma_basic_div_fact(bound: int)
    requires
        bound > 0,
    ensures
        (bound - 1) / bound == 0,
{
    vstd::arithmetic::div_mod::lemma_basic_div(bound - 1, bound);
}

/// A non-empty object makes at least one chunk.
proof fn lemma_count_positive(len: int, bound: int)
    requires
        len > 0,
        bound > 0,
    ensures
        (len + bound - 1) / bound >= 1,
{
    lemma_div_is_ordered(bound, len + bound - 1, bound);
    vstd::arithmetic::div_mod::lemma_div_by_self(bound);
}

/// For a completed upload the published samples never decrease, one
/// sample per chunk, and the last one is exactly 100.
pub proof fn lemma_progress_monotonic(u: Upload)
    requires
        u.wf(),
        u.status is Completed,
    ensures
        u.published@.len() == u.items@.len(),
        forall|j1: int, j2: int|
            0 <= j1 <= j2 < u.published@.len() ==> u.published@[j1] <= u.published@[j2],
        u.published@.len() > 0 ==> u.published@.last() == 100,
{
    let obj = u.object@;
    let b = u.bound as int;
    let total = u.total_bytes as int;
    if u.published@.len() > 0 {
        if obj.len() == 0 {
            assert(split_bytes(obj, b) =~= Seq::<Seq<u8>>::empty());
        }
        assert(total > 0);
        assert forall|j1: int, j2: int|
            0 <= j1 <= j2 < u.published@.len() implies u.published@[j1] <= u.published@[j2] by {
            lemma_raw_prefix_mono(obj, b, 0, j1 + 1);
            lemma_raw_prefix_mono(obj, b, j1 + 1, j2 + 1);
            lemma_percent_monotonic(raw_prefix(obj, b, j1 + 1), raw_prefix(obj, b, j2 + 1), total);
        }
        lemma_raw_prefix_full(obj, b);
        lemma_div_by_multiple(100, total);
    }
}

/// What reassembly decides for one attachment: the decoded payload when
/// the body is a canonical encoding and its name carries exactly the
/// next expected sequence index; otherwise the error that aborts the
/// download.  A recovered index ahead of an expected `0` means the
/// oldest messages never arrived: the pagination cursor was exhausted
/// early.  Any other mismatch, or an unreadable ordering key, is a gap
/// or duplicate in the sequence.
pub open spec fn attachment_outcome(name: Seq<u8>, body: Seq<u8>, seen: int) -> Result<
    Seq<u8>,
    StoreError,
> {
    if !(exists|d: Seq<u8>| body == base64_of(d)) {
        Result::Err(StoreError::CodecError)
    } else {
        let d = choose|d: Seq<u8>| body == base64_of(d);
        match parsed_index(name) {
            Option::None => Result::Err(StoreError::OrderError),
            Option::Some(i) => if i == seen {
                Result::Ok(d)
            } else if seen == 0 && i > 0 {
                Result::Err(StoreError::CursorExhaustedEarly)
            } else {
                Result::Err(StoreError::OrderError)
            },
        }
    }
}

/// The download state machine.  It walks the chronological history one
/// message at a time; the caller fetches each attachment's bytes and
/// hands them in.  Each processed message appends its decoded payload to
/// the output and yields a progress sample; any failure publishes the
/// sentinel and aborts, leaving bytes already written in place.
pub struct Download {
    pub history: Vec<MessageMeta>,
    pub pos: usize,
    pub seen: usize,
    pub output: Vec<u8>,
    pub published: Vec<u32>,
    pub status: TransferStatus,
}

impl Download {
    /// The machine's invariant: position, attachment count, progress
    /// record and status agree.
    pub open spec fn wf(self) -> bool {
        &&& self.pos <= self.history@.len()
        &&& self.seen <= self.pos
        &&& (self.status is Sending ==> self.pos < self.history@.len())
        &&& (self.status is Completed ==> self.pos == self.history@.len())
        &&& (!(self.status is Aborted) ==> self.published@.len() == self.pos)
        &&& (self.status is Aborted ==> self.published@.len() == self.pos + 1
            && self.published@.last() == 0)
        &&& (forall|j: int|
            0 <= j < self.pos ==> (#[trigger] self.published@[j]) as int == percent_of(
                j + 1,
                self.history@.len() as int,
            ))
    }

    /// Begin reassembling from a history already in chronological order
    /// (the result of `Pagination::into_history`).  An empty history
    /// completes at once with empty output.
    pub fn start(history: Vec<MessageMeta>) -> (d: Download)
        ensures
            d.wf(),
            d.history@ == history@,
            d.pos == 0,
            d.seen == 0,
            d.output@ == Seq::<u8>::empty(),
            d.published@ == Seq::<u32>::empty(),
            d.status == (if history@.len() == 0 {
                TransferStatus::Completed
            } else {
                TransferStatus::Sending
            }),
    {
        let empty = history.len() == 0;
        Download {
            history,
            pos: 0,
            seen: 0,
            output: Vec::new(),
            published: Vec::new(),
            status: if empty {
                TransferStatus::Completed
            } else {
                TransferStatus::Sending
            },
        }
    }

    /// The attachment whose bytes the caller must fetch next, if the
    /// current message has one and the download is still running.
    pub fn current_attachment(&self) -> (r: Option<&Attachment>)
        requires
            self.wf(),
        ensures
            match r {
                Some(a) => self.status is Sending && (self.history@[self.pos as int].attachment
                    matches Some(a2) && *a == a2),
                None => !(self.status is Sending)
                    || self.history@[self.pos as int].attachment is None,
            },
    {
        match self.status {
            TransferStatus::Sending => {
                match &self.history[self.pos].attachment {
                    Some(a) => Some(a),
                    None => None,
                }
            },
            _ => None,
        }
    }

    /// Process the current message.  `fetched` holds the attachment's
    /// bytes as fetched from its URL, `None` exactly when the message
    /// has no attachment (such a message is counted and skipped).  On
    /// success the decoded payload goes onto the output and the sample
    /// `messages processed * 100 / total messages` is recorded and
    /// returned; a codec or ordering failure records the sentinel `0`
    /// and aborts.
    pub fn advance(&mut self, fetched: Option<Vec<u8>>) -> (r: Result<u32, StoreError>)
        requires
            old(self).wf(),
            old(self).status is Sending,
            fetched is Some <==> old(self).history@[old(self).pos as int].attachment is Some,
        ensures
            final(self).wf(),
            final(self).history@ == old(self).history@,
            forall|d: Seq<u8>|
                old(self).history@[old(self).pos as int].attachment matches Some(a)
                    && fetched.unwrap()@ == base64_of(d) && parsed_index(a.name@) == Some(
                    old(self).seen as int,
                ) ==> final(self).output@ == old(self).output@ + d,
            ({
                let msg = old(self).history@[old(self).pos as int];
                match msg.attachment {
                    Option::None => {
                        &&& (r matches Ok(sample) && sample as int == percent_of(
                            old(self).pos + 1,
                            old(self).history@.len() as int,
                        ) && final(self).published@ == old(self).published@.push(sample))
                        &&& final(self).output@ == old(self).output@
                        &&& final(self).seen == old(self).seen
                        &&& final(self).pos == old(self).pos + 1
                        &&& final(self).status == (if old(self).pos + 1 == old(
                            self,
                        ).history@.len() {
                            TransferStatus::Completed
                        } else {
                            TransferStatus::Sending
                        })
                    },
                    Option::Some(a) => {
                        match attachment_outcome(
                            a.name@,
                            fetched.unwrap()@,
                            old(self).seen as int,
                        ) {
                            Result::Ok(d) => {
                                &&& (r matches Ok(sample) && sample as int == percent_of(
                                    old(self).pos + 1,
                                    old(self).history@.len() as int,
                                ) && final(self).published@ == old(self).published@.push(sample))
                                &&& final(self).output@ == old(self).output@ + d
                                &&& final(self).seen == old(self).seen + 1
                                &&& final(self).pos == old(self).pos + 1
                                &&& final(self).status == (if old(self).pos + 1 == old(
                                    self,
                                ).history@.len() {
                                    TransferStatus::Completed
                                } else {
                                    TransferStatus::Sending
                                })
                            },
                            Result::Err(e) => {
                                &&& r == Result::<u32, StoreError>::Err(e)
                                &&& final(self).output@ == old(self).output@
                                &&& final(self).seen == old(self).seen
                                &&& final(self).pos == old(self).pos
                                &&& final(self).published@ == old(self).published@.push(0)
                                &&& final(self).status is Aborted
                            },
                        }
                    },
                }
            }),
    {
        let n: usize = self.history.len();
        let pos: usize = self.pos;
        let has_attachment = match &self.history[pos].attachment {
            Some(_) => true,
            None => false,
        };
        if !has_attachment {
            let sample = progress_percent((pos + 1) as u64, n as u64);
            self.published.push(sample);
            self.pos = pos + 1;
            if self.pos == n {
                self.status = TransferStatus::Completed;
            }
            return Ok(sample);
        }
        let body = fetched.unwrap();
        match crate::codec::decode_bytes(&body) {
            Err(e) => {
                self.published.push(0);
                self.status = TransferStatus::Aborted;
                Err(e)
            },
            Ok(mut payload) => {
                proof {
                    let d = choose|d: Seq<u8>| body@ == base64_of(d);
                    assert(d == payload@);
                }
                let index = match &self.history[pos].attachment {
                    Some(a) => crate::naming::parse_chunk_index(&a.name),
                    None => None,
                };
                match index {
                    None => {
                        self.published.push(0);
                        self.status = TransferStatus::Aborted;
                        Err(StoreError::OrderError)
                    },
                    Some(i) => {
                        if i == self.seen as u64 {
                            let sample = progress_percent((pos + 1) as u64, n as u64);
                            self.output.append(&mut payload);
                            self.published.push(sample);
                            self.seen = self.seen + 1;
                            self.pos = pos + 1;
                            if self.pos == n {
                                self.status = TransferStatus::Completed;
                            }
                            Ok(sample)
                        } else if self.seen == 0 && i > 0 {
                            self.published.push(0);
                            self.status = TransferStatus::Aborted;
                            Err(StoreError::CursorExhaustedEarly)
                        } else {
                            self.published.push(0);
                            self.status = TransferStatus::Aborted;
                            Err(StoreError::OrderError)
                        }
                    },
                }
            },
        }
    }

    /// Record a failed attachment fetch: the sentinel `0` is recorded
    /// and the download aborts.  Bytes already on the output remain; an
    /// aborted machine accepts no further step.
    pub fn on_fetch_err(&mut self) -> (r: StoreError)
        requires
            old(self).wf(),
            old(self).status is Sending,
        ensures
            final(self).wf(),
            final(self).history@ == old(self).history@,
            final(self).output@ == old(self).output@,
            final(self).pos == old(self).pos,
            final(self).seen == old(self).seen,
            final(self).published@ == old(self).published@.push(0),
            final(self).status is Aborted,
            r == StoreError::TransportFetchError,
    {
        self.published.push(0);
        self.status = TransferStatus::Aborted;
        StoreError::TransportFetchError
    }
}

/// The whole protocol round trip, executed: the messages the upload
/// machine plans, handed back one by one in chronological order, are
/// reassembled by the download machine into exactly the original bytes,
/// for every object and every positive chunk bound.
pub fn store_round_trip(bytes: &Vec<u8>, stem: &Vec<u8>, bound: usize) -> (r: Vec<u8>)
    requires
        bound > 0,
        4 * ((bound as int + 2) / 3) <= usize::MAX as int,
    ensures
        r@ == bytes@,
{
    let up = Upload::start(ChannelHandle { id: 1 }, bytes, stem, bound);
    let n: usize = up.items.len();
    let mut history: Vec<MessageMeta> = Vec::new();
    let mut i: usize = 0;
    while i < n
        invariant
            i <= n,
            n == up.items@.len(),
            up.wf(),
            up.object@ == bytes@,
            up.stem@ == stem@,
            up.bound == bound,
            history@.len() == i,
            forall|j: int|
                0 <= j < i ==> ((#[trigger] history@[j]).attachment matches Some(a) && a.name@
                    == chunk_name_spec(stem@, j as nat)),
        decreases n - i,
    {
        let name = vstd::slice::slice_to_vec(up.items[i].name.as_slice());
        history.push(
            MessageMeta { id: i as u64, attachment: Some(Attachment { name, url: Vec::new() }) },
        );
        i = i + 1;
    }
    let mut dl = Download::start(history);
    let ghost slices = split_bytes(bytes@, bound as int);
    proof {
        assert(slices.take(0).flatten() =~= Seq::<u8>::empty());
    }
    while dl.status == TransferStatus::Sending
        invariant
            dl.wf(),
            dl.history@.len() == n,
            n == up.items@.len(),
            up.wf(),
            up.object@ == bytes@,
            up.stem@ == stem@,
            up.bound == bound,
            forall|j: int|
                0 <= j < n ==> ((#[trigger] dl.history@[j]).attachment matches Some(a) && a.name@
                    == chunk_name_spec(stem@, j as nat)),
            slices == split_bytes(bytes@, bound as int),
            n == slices.len(),
            dl.seen == dl.pos,
            !(dl.status is Aborted),
            dl.status is Completed ==> dl.pos == n,
            dl.output@ == slices.take(dl.pos as int).flatten(),
        decreases n - dl.pos,
    {
        let pos: usize = dl.pos;
        let body = vstd::slice::slice_to_vec(up.items[pos].body.as_slice());
        proof {
            lemma_chunk_name_round_trip(stem@, pos as u64);
            assert(body@ == base64_of(slices[pos as int]));
        }
        match dl.advance(Some(body)) {
            Ok(_) => {},
            Err(_) => {
                return unreached();
            },
        }
        proof {
            assert(up.slices() == slices);
            assert(0 <= pos < slices.len());
            assert(slices.take(pos as int + 1) =~= slices.take(pos as int).push(
                slices[pos as int],
            ));
            slices.take(pos as int).lemma_flatten_push(slices[pos as int]);
        }
    }
    proof {
        assert(slices.take(n as int) =~= slices);
        crate::codec::lemma_split_bytes_flatten(bytes@, bound as int);
    }
    dl.output
}

/// An aborted upload's record is the samples of the acknowledged chunks
/// followed by the sentinel `0`, and nothing after it: the machine
/// refuses further steps.
pub proof fn lemma_abort_sentinel(u: Upload)
    requires
        u.wf(),
        u.status is Aborted,
    ensures
        u.published@.len() == u.next + 1,
        u.published@.last() == 0,
        forall|j: int|
            0 <= j < u.next ==> (#[trigger] u.published@[j]) as int == percent_of(
                raw_prefix(u.object@, u.bound as int, j + 1),
                u.total_bytes as int,
            ),
{
}

} // verus!
