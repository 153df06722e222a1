//! The trace of a refinement: which cluster took which pairs out, in the
//! order in which it happened, and the bytes in which a trace is kept.

use vstd::bytes::{
    lemma_auto_spec_u64_to_from_le_bytes, spec_u64_from_le_bytes, spec_u64_to_le_bytes,
    u64_from_le_bytes, u64_to_le_bytes,
};
use vstd::prelude::*;
use vstd::slice::slice_subrange;

verus! {

/// Why a pair left the relation.
#[derive(Debug, Clone, Copy, PartialEq, Eq, Structural)]
pub enum EventKind {
    /// It failed the cluster test when the relation was set up.
    Base,
    /// It lost the support of a cluster during refinement.
    Derivation,
}

/// One event: the cluster that caused it and the pairs of node ids that are
/// its evidence.
#[derive(Debug, Clone, PartialEq, Eq)]
pub struct TraceEvent {
    pub kind: EventKind,
    pub cluster_id: u64,
    pub pairs: Vec<(u64, u64)>,
}

/// An event as a value.
pub struct EventView {
    pub kind: EventKind,
    pub cluster_id: u64,
    pub pairs: Seq<(u64, u64)>,
}

impl View for TraceEvent {
    type V = EventView;

    open spec fn view(&self) -> EventView {
        EventView { kind: self.kind, cluster_id: self.cluster_id, pairs: self.pairs@ }
    }
}

/// The events of a run, in the order in which they happened.
#[derive(Debug, Clone, PartialEq, Eq)]
pub struct TraceLog {
    events: Vec<TraceEvent>,
}

impl View for TraceLog {
    type V = Seq<EventView>;

    closed spec fn view(&self) -> Seq<EventView> {
        Seq::new(self.events@.len(), |i: int| self.events@[i]@)
    }
}

/// The byte that stands for a kind.
pub open spec fn tag_of(kind: EventKind) -> u8 {
    match kind {
        EventKind::Base => 0,
        EventKind::Derivation => 1,
    }
}

/// The bytes of a sequence of pairs: each pair as two numbers of eight
/// bytes, lowest byte first.
pub open spec fn encode_pairs(pairs: Seq<(u64, u64)>) -> Seq<u8>
    decreases pairs.len(),
{
    if pairs.len() == 0 {
        Seq::empty()
    } else {
        encode_pairs(pairs.drop_last()) + spec_u64_to_le_bytes(pairs.last().0)
            + spec_u64_to_le_bytes(pairs.last().1)
    }
}

/// The bytes of an event: the tag of its kind, the cluster id, the number
/// of pairs, and the pairs.
pub open spec fn encode_event(e: EventView) -> Seq<u8> {
    seq![tag_of(e.kind)] + spec_u64_to_le_bytes(e.cluster_id) + spec_u64_to_le_bytes(
        e.pairs.len() as u64,
    ) + encode_pairs(e.pairs)
}

/// The bytes of a trace: those of its events, one after the other.
pub open spec fn encode_events(events: Seq<EventView>) -> Seq<u8>
    decreases events.len(),
{
    if events.len() == 0 {
        Seq::empty()
    } else {
        encode_event(events[0]) + encode_events(events.drop_first())
    }
}

/// The `n` pairs that `bytes` begins with.
pub open spec fn decode_pairs(bytes: Seq<u8>, n: nat) -> Seq<(u64, u64)> {
    Seq::new(
        n,
        |i: int|
            (
                spec_u64_from_le_bytes(bytes.subrange(16 * i, 16 * i + 8)),
                spec_u64_from_le_bytes(bytes.subrange(16 * i + 8, 16 * i + 16)),
            ),
    )
}

/// The event that `bytes` begins with and the number of bytes it takes, if
/// `bytes` begins with an event.
pub open spec fn decode_event(bytes: Seq<u8>) -> Option<(EventView, int)> {
    if bytes.len() < 17 || bytes[0] > 1 {
        None
    } else {
        let n = spec_u64_from_le_bytes(bytes.subrange(9, 17));
        if bytes.len() - 17 < 16 * n {
            None
        } else {
            Some(
                (
                    EventView {
                        kind: if bytes[0] == 0 {
                            EventKind::Base
                        } else {
                            EventKind::Derivation
                        },
                        cluster_id: spec_u64_from_le_bytes(bytes.subrange(1, 9)),
                        pairs: decode_pairs(bytes.subrange(17, 17 + 16 * n), n as nat),
                    },
                    17 + 16 * n,
                ),
            )
        }
    }
}

/// The events that `bytes` are made of, if they are a trace.
pub open spec fn decode_events(bytes: Seq<u8>) -> Option<Seq<EventView>>
    decreases bytes.len(),
{
    if bytes.len() == 0 {
        Some(Seq::empty())
    } else {
        match decode_event(bytes) {
            Some((e, used)) => match decode_events(bytes.skip(used)) {
                Some(rest) => Some(seq![e] + rest),
                None => None,
            },
            None => None,
        }
    }
}

/// The bytes of pairs are sixteen for each pair.
pub proof fn lemma_encode_pairs_len(pairs: Seq<(u64, u64)>)
    ensures
        encode_pairs(pairs).len() == 16 * pairs.len(),
    decreases pairs.len(),
{
    lemma_auto_spec_u64_to_from_le_bytes();
    if pairs.len() > 0 {
        lemma_encode_pairs_len(pairs.drop_last());
    }
}

/// Pairs come back from their bytes, whatever follows them.
pub proof fn lemma_pairs_round_trip(pairs: Seq<(u64, u64)>, tail: Seq<u8>)
    ensures
        decode_pairs(encode_pairs(pairs) + tail, pairs.len()) == pairs,
    decreases pairs.len(),
{
    lemma_auto_spec_u64_to_from_le_bytes();
    lemma_encode_pairs_len(pairs);
    let bytes = encode_pairs(pairs) + tail;
    let back = decode_pairs(bytes, pairs.len());
    if pairs.len() > 0 {
        let rest = pairs.drop_last();
        let a = spec_u64_to_le_bytes(pairs.last().0);
        let b = spec_u64_to_le_bytes(pairs.last().1);
        lemma_encode_pairs_len(rest);
        lemma_pairs_round_trip(rest, a + b + tail);
        assert(encode_pairs(rest) + (a + b + tail) =~= bytes);
        let n = rest.len() as int;
        assert forall|i: int| 0 <= i < pairs.len() implies back[i] == pairs[i] by {
            if i < n {
                assert(decode_pairs(bytes, rest.len())[i] == rest[i]);
            } else {
                assert(bytes.subrange(16 * n, 16 * n + 8) =~= a);
                assert(bytes.subrange(16 * n + 8, 16 * n + 16) =~= b);
            }
        }
    }
    assert(back =~= pairs);
}

/// An event comes back from its bytes, whatever follows them.
pub proof fn lemma_event_round_trip(e: EventView, tail: Seq<u8>)
    requires
        e.pairs.len() <= u64::MAX,
    ensures
        decode_event(encode_event(e) + tail) == Some((e, encode_event(e).len() as int)),
        encode_event(e).len() == 17 + 16 * e.pairs.len(),
{
    lemma_auto_spec_u64_to_from_le_bytes();
    lemma_encode_pairs_len(e.pairs);
    let c = spec_u64_to_le_bytes(e.cluster_id);
    let k = spec_u64_to_le_bytes(e.pairs.len() as u64);
    let p = encode_pairs(e.pairs);
    let bytes = encode_event(e) + tail;
    assert(bytes[0] == tag_of(e.kind));
    assert(bytes.subrange(1, 9) =~= c);
    assert(bytes.subrange(9, 17) =~= k);
    let n = e.pairs.len() as int;
    assert(bytes.subrange(17, 17 + 16 * n) =~= p);
    lemma_pairs_round_trip(e.pairs, Seq::empty());
    assert(p + Seq::<u8>::empty() =~= p);
    let (got, used) = decode_event(bytes).unwrap();
    assert(got.pairs == e.pairs);
    assert(got.kind == e.kind);
}

/// Writing a trace and reading what was written gives the trace back.
pub proof fn lemma_trace_round_trip(events: Seq<EventView>)
    requires
        forall|i: int| 0 <= i < events.len() ==> (#[trigger] events[i]).pairs.len() <= u64::MAX,
    ensures
        decode_events(encode_events(events)) == Some(events),
    decreases events.len(),
{
    if events.len() > 0 {
        let rest = events.drop_first();
        let tail = encode_events(rest);
        lemma_event_round_trip(events[0], tail);
        lemma_trace_round_trip(rest);
        let bytes = encode_events(events);
        let used = encode_event(events[0]).len() as int;
        assert(bytes.skip(used) =~= tail);
        assert(seq![events[0]] + rest =~= events);
    }
}

/// The bytes of a trace with one more event are those of the trace and then
/// those of the event.
pub proof fn lemma_encode_events_push(events: Seq<EventView>, e: EventView)
    ensures
        encode_events(events.push(e)) == encode_events(events) + encode_event(e),
    decreases events.len(),
{
    if events.len() == 0 {
        let one = events.push(e);
        assert(one.drop_first() =~= Seq::<EventView>::empty());
        assert(one[0] == e);
        assert(encode_events(one.drop_first()) =~= Seq::<u8>::empty());
        assert(encode_events(one) =~= encode_event(e) + encode_events(one.drop_first()));
        assert(encode_events(one) =~= encode_event(e));
        assert(encode_events(events) + encode_event(e) =~= encode_event(e));
    } else {
        lemma_encode_events_push(events.drop_first(), e);
        assert(events.push(e).drop_first() =~= events.drop_first().push(e));
        assert(encode_events(events.push(e)) =~= encode_events(events) + encode_event(e));
    }
}

/// Appends the eight bytes of `x`, lowest byte first.
pub fn push_u64(out: &mut Vec<u8>, x: u64)
    ensures
        final(out)@ == old(out)@ + spec_u64_to_le_bytes(x),
{
    let ghost before = out@;
    let bytes = u64_to_le_bytes(x);
    let mut k: usize = 0;
    while k < 8
        invariant
            k <= 8,
            bytes@.len() == 8,
            out@ == before + bytes@.take(k as int),
        decreases 8 - k,
    {
        out.push(bytes[k]);
        proof {
            assert(bytes@.take(k as int + 1) =~= bytes@.take(k as int).push(bytes@[k as int]));
            assert(out@ =~= before + bytes@.take(k as int + 1));
        }
        k = k + 1;
    }
    proof {
        assert(bytes@.take(8) =~= bytes@);
    }
}

/// Reads the number that the eight bytes from `at` on stand for.
pub fn read_u64(bytes: &[u8], at: usize) -> (x: u64)
    requires
        at + 8 <= bytes@.len(),
    ensures
        x == spec_u64_from_le_bytes(bytes@.subrange(at as int, at + 8)),
{
    let total = bytes.len();
    u64_from_le_bytes(slice_subrange(bytes, at, at + 8))
}

impl TraceEvent {
    /// The bytes of the event.
    pub fn to_bytes(&self, out: &mut Vec<u8>)
        ensures
            final(out)@ == old(out)@ + encode_event(self@),
    {
        let ghost before = out@;
        let tag: u8 = match self.kind {
            EventKind::Base => 0,
            EventKind::Derivation => 1,
        };
        out.push(tag);
        push_u64(out, self.cluster_id);
        push_u64(out, self.pairs.len() as u64);
        let ghost head = out@;
        proof {
            assert(head =~= before + (seq![tag_of(self.kind)] + spec_u64_to_le_bytes(self.cluster_id)
                + spec_u64_to_le_bytes(self.pairs@.len() as u64)));
        }
        let mut j: usize = 0;
        while j < self.pairs.len()
            invariant
                j <= self.pairs@.len(),
                out@ == head + encode_pairs(self.pairs@.take(j as int)),
            decreases self.pairs@.len() - j,
        {
            let (left, right) = self.pairs[j];
            push_u64(out, left);
            push_u64(out, right);
            proof {
                let next = self.pairs@.take(j as int + 1);
                assert(next.drop_last() =~= self.pairs@.take(j as int));
                assert(next.last() == self.pairs@[j as int]);
                assert(out@ =~= head + encode_pairs(next));
            }
            j = j + 1;
        }
        proof {
            assert(self.pairs@.take(j as int) =~= self.pairs@);
            assert(out@ =~= before + encode_event(self@));
        }
    }
}

impl TraceLog {
    /// The trace without events.
    pub fn new() -> (log: Self)
        ensures
            log@ == Seq::<EventView>::empty(),
    {
        let log = TraceLog { events: Vec::new() };
        assert(log@ =~= Seq::<EventView>::empty());
        log
    }

    /// Appends an event.
    pub fn append(&mut self, event: TraceEvent)
        ensures
            final(self)@ == old(self)@.push(event@),
    {
        self.events.push(event);
        assert(self@ =~= old(self)@.push(event@));
    }

    /// The number of events.
    pub fn len(&self) -> (n: usize)
        ensures
            n == self@.len(),
    {
        self.events.len()
    }

    /// The events, in the order in which they happened.
    pub fn events(&self) -> (r: &[TraceEvent])
        ensures
            r@.len() == self@.len(),
            forall|i: int| 0 <= i < r@.len() ==> (#[trigger] r@[i])@ == self@[i],
    {
        self.events.as_slice()
    }

    /// The bytes of the trace.
    pub fn to_bytes(&self) -> (bytes: Vec<u8>)
        ensures
            bytes@ == encode_events(self@),
    {
        let mut out: Vec<u8> = Vec::new();
        let mut i: usize = 0;
        while i < self.events.len()
            invariant
                i <= self.events@.len(),
                out@ == encode_events(self@.take(i as int)),
            decreases self.events@.len() - i,
        {
            let ghost before = out@;
            self.events[i].to_bytes(&mut out);
            proof {
                lemma_encode_events_push(self@.take(i as int), self@[i as int]);
                assert(self@.take(i as int + 1) =~= self@.take(i as int).push(self@[i as int]));
            }
            i = i + 1;
        }
        proof {
            assert(self@.take(i as int) =~= self@);
        }
        out
    }

    /// Round trip: reading the bytes of a trace gives the trace back.
    pub proof fn lemma_round_trip(&self)
        ensures
            decode_events(encode_events(self@)) == Some(self@),
    {
        assert forall|i: int| 0 <= i < self@.len() implies (#[trigger] self@[i]).pairs.len()
            <= u64::MAX by {
            assert(self.events@[i].pairs.len() == self.events@[i].pairs@.len());
        }
        lemma_trace_round_trip(self@);
    }

    /// The trace that `bytes` are made of, and nothing where they are none.
    pub fn from_bytes(bytes: &[u8]) -> (r: Option<TraceLog>)
        ensures
            match r {
                Some(log) => decode_events(bytes@) == Some(log@),
                None => decode_events(bytes@) is None,
            },
    {
        let mut events: Vec<TraceEvent> = Vec::new();
        let ghost mut seen: Seq<EventView> = Seq::empty();
        let mut pos: usize = 0;
        proof {
            assert(bytes@.skip(0) =~= bytes@);
            match decode_events(bytes@) {
                Some(rest) => {
                    assert(seen + rest =~= rest);
                },
                None => {},
            }
        }
        while pos < bytes.len()
            invariant
                pos <= bytes@.len(),
                seen.len() == events@.len(),
                forall|i: int| 0 <= i < events@.len() ==> (#[trigger] events@[i])@ == seen[i],
                decode_events(bytes@) == match decode_events(bytes@.skip(pos as int)) {
                    Some(rest) => Some(seen + rest),
                    None => None::<Seq<EventView>>,
                },
            decreases bytes@.len() - pos,
        {
            let ghost rest = bytes@.skip(pos as int);
            let left = bytes.len() - pos;
            if left < 17 {
                return None;
            }
            let tag = bytes[pos];
            assert(rest[0] == tag);
            if tag > 1 {
                return None;
            }
            let cluster_id = read_u64(bytes, pos + 1);
            let count = read_u64(bytes, pos + 9);
            proof {
                assert(rest.subrange(1, 9) =~= bytes@.subrange(pos + 1, pos + 9));
                assert(rest.subrange(9, 17) =~= bytes@.subrange(pos + 9, pos + 17));
            }
            let room = (left - 17) / 16;
            if count > room as u64 {
                assert(rest.len() - 17 < 16 * count);
                return None;
            }
            assert(rest.len() - 17 >= 16 * count);
            let n = count as usize;
            let start = pos + 17;
            let ghost body = rest.subrange(17, 17 + 16 * n);
            let mut pairs: Vec<(u64, u64)> = Vec::new();
            let mut j: usize = 0;
            while j < n
                invariant
                    j <= n,
                    start == pos + 17,
                    start + 16 * n <= bytes@.len(),
                    bytes@.len() <= usize::MAX,
                    rest == bytes@.skip(pos as int),
                    body == rest.subrange(17, 17 + 16 * n),
                    pairs@.len() == j,
                    forall|i: int| 0 <= i < j ==> #[trigger] pairs@[i] == decode_pairs(body, n as nat)[i],
                decreases n - j,
            {
                let a = read_u64(bytes, start + 16 * j);
                let b = read_u64(bytes, start + 16 * j + 8);
                proof {
                    assert(body.subrange(16 * j, 16 * j + 8) =~= bytes@.subrange(
                        start + 16 * j,
                        start + 16 * j + 8,
                    ));
                    assert(body.subrange(16 * j + 8, 16 * j + 16) =~= bytes@.subrange(
                        start + 16 * j + 8,
                        start + 16 * j + 16,
                    ));
                }
                pairs.push((a, b));
                j = j + 1;
            }
            let kind = if tag == 0 {
                EventKind::Base
            } else {
                EventKind::Derivation
            };
            let event = TraceEvent { kind, cluster_id, pairs };
            proof {
                assert(event@.pairs =~= decode_pairs(body, n as nat));
                let used = 17 + 16 * n;
                assert(decode_event(rest) == Some((event@, used)));
                assert(rest.skip(used) =~= bytes@.skip(pos + used));
                match decode_events(rest.skip(used)) {
                    Some(more) => {
                        assert(seen + (seq![event@] + more) =~= seen.push(event@) + more);
                    },
                    None => {},
                }
                seen = seen.push(event@);
            }
            events.push(event);
            pos = start + 16 * n;
        }
        let log = TraceLog { events };
        proof {
            assert(bytes@.skip(pos as int) =~= Seq::<u8>::empty());
            assert(log@ =~= seen);
            assert(seen + Seq::<EventView>::empty() =~= seen);
        }
        Some(log)
    }
}

} // verus!
