//! Classification of incoming messages into whole responses and the parts of
//! streamed search results, by message ID.
use std::collections::HashSet;

use vstd::prelude::*;

use crate::envelope::{
    build_envelope, envelope_fits, envelope_view, message_of, opt_view, LDAPCodec, LDAPMessage,
};
use crate::error::LDAPError;
use crate::tag::{Class, Tag, TagView};
use crate::wire::encode_view;

verus! {

broadcast use vstd::std_specs::hash::group_hash_axioms;

/// Application tag number of a search result entry.
pub const SEARCH_RESULT_ENTRY: u64 = 4;

/// Application tag number of a search result done.
pub const SEARCH_RESULT_DONE: u64 = 5;

/// What one incoming message is delivered as.
#[derive(Debug, PartialEq, Eq)]
pub enum Frame {
    /// A response; `body` says that body chunks with the same ID follow.
    Message { id: i32, message: Tag, body: bool },
    /// A further part of a streamed response; `None` ends the stream.
    Body { id: i32, chunk: Option<Tag> },
}

/// A frame with its elements as mathematical trees.
pub enum FrameView {
    Message { id: i32, message: TagView, body: bool },
    Body { id: i32, chunk: Option<TagView> },
}

impl View for Frame {
    type V = FrameView;

    open spec fn view(&self) -> FrameView {
        match self {
            Frame::Message { id, message, body } => FrameView::Message {
                id: *id,
                message: message@,
                body: *body,
            },
            Frame::Body { id, chunk } => FrameView::Body { id: *id, chunk: opt_view(*chunk) },
        }
    }
}

impl FrameView {
    /// The message ID the frame carries.
    pub open spec fn id(self) -> i32 {
        match self {
            FrameView::Message { id, .. } => id,
            FrameView::Body { id, .. } => id,
        }
    }
}

/// How the operation `op` under message ID `id` is delivered, given the IDs
/// whose search results are streaming, and which IDs stream afterwards.
/// The first entry of a search opens a stream and comes as a message with a
/// body; later entries come as body chunks; the done closes the stream with an
/// empty chunk; anything else is a message without body.
pub open spec fn demux_step(open: Set<i32>, id: i32, op: TagView) -> (Set<i32>, FrameView) {
    if op.class == Class::Application(SEARCH_RESULT_ENTRY) {
        if open.contains(id) {
            (open, FrameView::Body { id, chunk: Some(op) })
        } else {
            (open.insert(id), FrameView::Message { id, message: op, body: true })
        }
    } else if op.class == Class::Application(SEARCH_RESULT_DONE) {
        (open.remove(id), FrameView::Body { id, chunk: None })
    } else {
        (open, FrameView::Message { id, message: op, body: false })
    }
}

/// What decoding `buf` does, given the IDs streaming: the IDs streaming
/// afterwards, and where the message ends with the frame it is delivered as,
/// `None` where more bytes are needed, or the error.
pub open spec fn decode_step(open: Set<i32>, buf: Seq<u8>) -> (
    Set<i32>,
    Result<Option<(int, FrameView)>, LDAPError>,
) {
    match message_of(buf) {
        Ok(Some((n, id, op, _))) => {
            let step = demux_step(open, id, op);
            (step.0, Ok(Some((n, step.1))))
        },
        Ok(None) => (open, Ok(None)),
        Err(e) => (open, Err(e)),
    }
}

/// The result of a decode, with the frame as a view.
pub open spec fn decoded_view(r: Result<Option<(usize, Frame)>, LDAPError>) -> Result<
    Option<(int, FrameView)>,
    LDAPError,
> {
    match r {
        Ok(Some((n, f))) => Ok(Some((n as int, f@))),
        Ok(None) => Ok(None),
        Err(e) => Err(e),
    }
}

/// Reads and writes messages of one connection, and keeps the message IDs
/// whose search results are streaming.
pub struct LdapCodec {
    search_seen: HashSet<i32>,
}

impl View for LdapCodec {
    type V = Set<i32>;

    /// The message IDs whose search results are streaming.
    closed spec fn view(&self) -> Set<i32> {
        self.search_seen@
    }
}

impl LdapCodec {
    /// A codec with no search streaming.
    pub fn new() -> (r: LdapCodec)
        ensures
            r@ == Set::<i32>::empty(),
    {
        LdapCodec { search_seen: HashSet::new() }
    }

    /// Classifies the operation `op` that came under message ID `id`.
    pub fn demux(&mut self, id: i32, op: Tag) -> (r: Frame)
        ensures
            (final(self)@, r@) == demux_step(old(self)@, id, op@),
    {
        if op.class == Class::Application(SEARCH_RESULT_ENTRY) {
            if self.search_seen.contains(&id) {
                Frame::Body { id, chunk: Some(op) }
            } else {
                self.search_seen.insert(id);
                Frame::Message { id, message: op, body: true }
            }
        } else if op.class == Class::Application(SEARCH_RESULT_DONE) {
            self.search_seen.remove(&id);
            Frame::Body { id, chunk: None }
        } else {
            Frame::Message { id, message: op, body: false }
        }
    }

    /// Reads the message at the start of `buf` and classifies it: the number
    /// of bytes it takes and the frame, `Ok(None)` where more bytes are
    /// needed, or the error. Controls are not delivered. An element that is
    /// not an LDAP message is an error and changes nothing.
    pub fn decode(&mut self, buf: &[u8]) -> (r: Result<Option<(usize, Frame)>, LDAPError>)
        ensures
            (final(self)@, decoded_view(r)) == decode_step(old(self)@, buf@),
    {
        let mut codec = LDAPCodec::new();
        match codec.decode(buf) {
            Ok(Some((n, msg))) => {
                let LDAPMessage { id, protocol_op, controls: _ } = msg;
                let frame = self.demux(id, protocol_op);
                Ok(Some((n, frame)))
            },
            Ok(None) => Ok(None),
            Err(e) => Err(e),
        }
    }

    /// Appends the encoding of a request message to `into`. Requests are
    /// never streamed, so only messages are written.
    pub fn encode(&mut self, frame: Frame, into: &mut Vec<u8>)
        requires
            frame matches Frame::Message { id, message, .. } && envelope_fits(
                id,
                message@,
                None,
            ),
        ensures
            frame matches Frame::Message { id, message, .. } && final(into)@ == old(into)@
                + encode_view(envelope_view(id, message@, None)),
            final(self)@ == old(self)@,
    {
        match frame {
            Frame::Message { id, message, body: _ } => {
                let envelope = build_envelope(id, message, None);
                envelope.write(into);
            },
            Frame::Body { .. } => {},
        }
    }

    /// Forgets the search under message ID `id`, which was abandoned.
    pub fn abandon(&mut self, id: i32)
        ensures
            final(self)@ == old(self)@.remove(id),
    {
        self.search_seen.remove(&id);
    }
}

/// The IDs streaming and the frames delivered after the events `events`, each
/// an ID and an operation, starting with `open` streaming.
pub open spec fn demux_run(open: Set<i32>, events: Seq<(i32, TagView)>) -> (Set<i32>, Seq<FrameView>)
    decreases events.len(),
{
    if events.len() == 0 {
        (open, seq![])
    } else {
        let before = demux_run(open, events.subrange(0, events.len() - 1));
        let last = events[events.len() - 1];
        let step = demux_step(before.0, last.0, last.1);
        (step.0, before.1.push(step.1))
    }
}

/// The events of a search under message ID `k`: its entries, then its done.
pub open spec fn search_events(k: i32, entries: Seq<TagView>, done: TagView) -> Seq<(i32, TagView)> {
    Seq::new(entries.len(), |i: int| (k, entries[i])).push((k, done))
}

/// The frames of such a search: a message with the first entry that opens
/// the stream, a body chunk with each later entry, and an empty body chunk.
pub open spec fn search_frames(k: i32, entries: Seq<TagView>) -> Seq<FrameView> {
    seq![FrameView::Message { id: k, message: entries[0], body: true }] + Seq::new(
        (entries.len() - 1) as nat,
        |i: int| FrameView::Body { id: k, chunk: Some(entries[i + 1]) },
    ) + seq![FrameView::Body { id: k, chunk: None }]
}

proof fn lemma_search_prefix(open: Set<i32>, k: i32, entries: Seq<TagView>, j: int)
    requires
        !open.contains(k),
        1 <= j <= entries.len(),
        forall|i: int| 0 <= i < entries.len() ==> (#[trigger] entries[i]).class == Class::Application(
            SEARCH_RESULT_ENTRY,
        ),
    ensures
        demux_run(open, Seq::new(j as nat, |i: int| (k, entries[i]))) == (
            open.insert(k),
            seq![FrameView::Message { id: k, message: entries[0], body: true }] + Seq::new(
                (j - 1) as nat,
                |i: int| FrameView::Body { id: k, chunk: Some(entries[i + 1]) },
            ),
        ),
    decreases j,
{
    let events = Seq::new(j as nat, |i: int| (k, entries[i]));
    let head = seq![FrameView::Message { id: k, message: entries[0], body: true }];
    if j == 1 {
        assert(events.subrange(0, 0) =~= Seq::<(i32, TagView)>::empty());
        assert(demux_run(open, events.subrange(0, 0)) == (open, Seq::<FrameView>::empty()));
        assert(entries[0].class == Class::Application(SEARCH_RESULT_ENTRY));
        let run = demux_run(open, events);
        assert(run.1 =~= head + Seq::new(
            0,
            |i: int| FrameView::Body { id: k, chunk: Some(entries[i + 1]) },
        ));
    } else {
        lemma_search_prefix(open, k, entries, j - 1);
        assert(events.subrange(0, j - 1) =~= Seq::new((j - 1) as nat, |i: int| (k, entries[i])));
        assert(entries[j - 1].class == Class::Application(SEARCH_RESULT_ENTRY));
        assert(open.insert(k).contains(k));
        let run = demux_run(open, events);
        assert(run.1 =~= head + Seq::new(
            (j - 1) as nat,
            |i: int| FrameView::Body { id: k, chunk: Some(entries[i + 1]) },
        ));
    }
}

/// A search that answers with one or more entries and then a done, all under a
/// message ID `k` that is not streaming, is delivered as one message that
/// opens the stream, a body chunk for each later entry, and an empty body
/// chunk; afterwards `k` no longer streams.
pub proof fn lemma_demux_search_stream(
    open: Set<i32>,
    k: i32,
    entries: Seq<TagView>,
    done: TagView,
)
    requires
        !open.contains(k),
        entries.len() >= 1,
        forall|i: int| 0 <= i < entries.len() ==> (#[trigger] entries[i]).class == Class::Application(
            SEARCH_RESULT_ENTRY,
        ),
        done.class == Class::Application(SEARCH_RESULT_DONE),
    ensures
        demux_run(open, search_events(k, entries, done)) == (open, search_frames(k, entries)),
{
    let n = entries.len() as int;
    let events = search_events(k, entries, done);
    lemma_search_prefix(open, k, entries, n);
    assert(events.subrange(0, n) =~= Seq::new(n as nat, |i: int| (k, entries[i])));
    assert(open.insert(k).remove(k) =~= open);
    let run = demux_run(open, events);
    assert(run.1 =~= search_frames(k, entries));
}

/// The events of `events` under message ID `k`, in order.
pub open spec fn events_of(events: Seq<(i32, TagView)>, k: i32) -> Seq<(i32, TagView)>
    decreases events.len(),
{
    if events.len() == 0 {
        seq![]
    } else {
        let before = events_of(events.subrange(0, events.len() - 1), k);
        if events[events.len() - 1].0 == k {
            before.push(events[events.len() - 1])
        } else {
            before
        }
    }
}

/// The frames of `frames` that carry message ID `k`, in order.
pub open spec fn frames_of(frames: Seq<FrameView>, k: i32) -> Seq<FrameView>
    decreases frames.len(),
{
    if frames.len() == 0 {
        seq![]
    } else {
        let before = frames_of(frames.subrange(0, frames.len() - 1), k);
        if frames[frames.len() - 1].id() == k {
            before.push(frames[frames.len() - 1])
        } else {
            before
        }
    }
}

/// Events under other message IDs do not disturb those under `k`: whether
/// `k` streams, and the frames that carry `k`, are what the events under `k`
/// alone give.
pub proof fn lemma_demux_independent(open: Set<i32>, events: Seq<(i32, TagView)>, k: i32)
    ensures
        demux_run(open, events).0.contains(k) == demux_run(open, events_of(events, k)).0.contains(k),
        frames_of(demux_run(open, events).1, k) == demux_run(open, events_of(events, k)).1,
    decreases events.len(),
{
    if events.len() > 0 {
        let init = events.subrange(0, events.len() - 1);
        let last = events[events.len() - 1];
        lemma_demux_independent(open, init, k);
        let before = demux_run(open, init);
        let alone = demux_run(open, events_of(init, k));
        let step = demux_step(before.0, last.0, last.1);
        let frames = before.1.push(step.1);
        assert(frames.subrange(0, frames.len() - 1) =~= before.1);
        if last.0 == k {
            let only = events_of(init, k).push(last);
            assert(only.subrange(0, only.len() - 1) =~= events_of(init, k));
        } else {
            assert(step.0.contains(k) == before.0.contains(k));
        }
    }
}

/// The IDs streaming and the results after decoding each of `bufs` in turn,
/// starting with `open` streaming.
pub open spec fn decode_run(open: Set<i32>, bufs: Seq<Seq<u8>>) -> (
    Set<i32>,
    Seq<Result<Option<(int, FrameView)>, LDAPError>>,
)
    decreases bufs.len(),
{
    if bufs.len() == 0 {
        (open, seq![])
    } else {
        let before = decode_run(open, bufs.subrange(0, bufs.len() - 1));
        let step = decode_step(before.0, bufs[bufs.len() - 1]);
        (step.0, before.1.push(step.1))
    }
}

/// A decode result that delivers the frame `f`.
pub open spec fn delivered_as(r: Result<Option<(int, FrameView)>, LDAPError>, f: FrameView) -> bool {
    r matches Ok(Some((_, g))) && g == f
}

/// `buf` holds a whole message under ID `id` with operation `op`.
pub open spec fn delivers(buf: Seq<u8>, id: i32, op: TagView) -> bool {
    message_of(buf) matches Ok(Some((_, i, o, _))) && i == id && o == op
}

/// Decoding whole messages one by one classifies them as the run of their
/// events does.
proof fn lemma_decode_run_events(open: Set<i32>, bufs: Seq<Seq<u8>>, events: Seq<(i32, TagView)>)
    requires
        events.len() == bufs.len(),
        forall|i: int| 0 <= i < bufs.len() ==> delivers(#[trigger] bufs[i], events[i].0, events[i].1),
    ensures
        decode_run(open, bufs).0 == demux_run(open, events).0,
        decode_run(open, bufs).1.len() == bufs.len(),
        demux_run(open, events).1.len() == events.len(),
        forall|i: int|
            0 <= i < bufs.len() ==> delivered_as(#[trigger] decode_run(open, bufs).1[i], demux_run(open, events).1[i]),
    decreases bufs.len(),
{
    if bufs.len() > 0 {
        let n = bufs.len() - 1;
        let ib = bufs.subrange(0, n);
        let ie = events.subrange(0, n);
        assert forall|i: int| 0 <= i < ib.len() implies delivers(#[trigger] ib[i], ie[i].0, ie[i].1) by {
            assert(ib[i] == bufs[i]);
            assert(ie[i] == events[i]);
        }
        lemma_decode_run_events(open, ib, ie);
        assert(delivers(bufs[n], events[n].0, events[n].1));
        let run = decode_run(open, bufs);
        let drun = demux_run(open, events);
        assert forall|i: int| 0 <= i < bufs.len() implies delivered_as(#[trigger] run.1[i], drun.1[i]) by {
            if i < n {
                assert(run.1[i] == decode_run(open, ib).1[i]);
                assert(drun.1[i] == demux_run(open, ie).1[i]);
            }
        }
    }
}

/// A search that answers with one or more entries and then a done, all under a
/// message ID `k` that is not streaming, each read whole by one decode, is
/// delivered as one message that opens the stream, a body chunk for each later
/// entry, and an empty body chunk; afterwards `k` no longer streams.
pub proof fn lemma_decode_search_stream(
    open: Set<i32>,
    k: i32,
    bufs: Seq<Seq<u8>>,
    entries: Seq<TagView>,
    done: TagView,
)
    requires
        !open.contains(k),
        entries.len() >= 1,
        bufs.len() == entries.len() + 1,
        forall|i: int| 0 <= i < entries.len() ==> delivers(#[trigger] bufs[i], k, entries[i]),
        delivers(bufs[entries.len() as int], k, done),
        forall|i: int| 0 <= i < entries.len() ==> (#[trigger] entries[i]).class == Class::Application(
            SEARCH_RESULT_ENTRY,
        ),
        done.class == Class::Application(SEARCH_RESULT_DONE),
    ensures
        decode_run(open, bufs).0 == open,
        decode_run(open, bufs).1.len() == bufs.len(),
        forall|i: int|
            0 <= i < bufs.len() ==> delivered_as(#[trigger] decode_run(open, bufs).1[i], search_frames(k, entries)[i]),
{
    let events = search_events(k, entries, done);
    assert forall|i: int| 0 <= i < bufs.len() implies delivers(#[trigger] bufs[i], events[i].0, events[i].1) by {
        if i < entries.len() {
            assert(delivers(bufs[i], k, entries[i]));
        }
    }
    lemma_decode_run_events(open, bufs, events);
    lemma_demux_search_stream(open, k, entries, done);
}

} // verus!
