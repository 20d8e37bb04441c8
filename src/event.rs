use vstd::prelude::*;

use crate::types::Sha256;

verus! {

/// The lifecycle status of a tracked item.
#[derive(Clone, Copy, Debug, PartialEq, Eq, Structural)]
pub enum Status {
    Produced,
    InTransit,
    InStore,
    Sold,
}

/// A link to off-chain metadata, with an optional digest of its content.
#[derive(Debug)]
pub struct MetadataUrl {
    pub url: Vec<u8>,
    pub hash: Option<Sha256>,
}

/// The domain events that the tracked contract logs and this indexer stores.
#[derive(Debug)]
pub enum DomainEvent {
    ItemCreated { item_id: u64, metadata_url: Option<MetadataUrl> },
    ItemStatusChanged { item_id: u64, new_status: Status, additional_data: Vec<u8> },
}

/// An event payload that matches none of the known schemas.
#[derive(Clone, Copy, Debug, PartialEq, Eq, Structural)]
pub struct DecodeError;

/// Mathematical form of a [`MetadataUrl`].
pub struct UrlView {
    pub url: Seq<u8>,
    pub hash: Option<Seq<u8>>,
}

/// Mathematical form of a [`DomainEvent`].
pub enum EventView {
    ItemCreated { item_id: u64, metadata_url: Option<UrlView> },
    ItemStatusChanged { item_id: u64, new_status: Status, additional_data: Seq<u8> },
}

impl View for MetadataUrl {
    type V = UrlView;

    open spec fn view(&self) -> UrlView {
        UrlView {
            url: self.url@,
            hash: match self.hash {
                Some(h) => Some(h@),
                None => None,
            },
        }
    }
}

impl View for DomainEvent {
    type V = EventView;

    open spec fn view(&self) -> EventView {
        match self {
            DomainEvent::ItemCreated { item_id, metadata_url } => EventView::ItemCreated {
                item_id: *item_id,
                metadata_url: match metadata_url {
                    Some(m) => Some(m@),
                    None => None,
                },
            },
            DomainEvent::ItemStatusChanged { item_id, new_status, additional_data } =>
                EventView::ItemStatusChanged {
                item_id: *item_id,
                new_status: *new_status,
                additional_data: additional_data@,
            },
        }
    }
}

/// The eight little-endian bytes of `x`.
pub open spec fn u64_le_bytes(x: u64) -> Seq<u8> {
    seq![
        x as u8,
        (x >> 8u64) as u8,
        (x >> 16u64) as u8,
        (x >> 24u64) as u8,
        (x >> 32u64) as u8,
        (x >> 40u64) as u8,
        (x >> 48u64) as u8,
        (x >> 56u64) as u8,
    ]
}

/// The integer whose little-endian bytes start `b`.
pub open spec fn le_u64(b: Seq<u8>) -> u64
    recommends
        b.len() >= 8,
{
    (b[0] as u64) | ((b[1] as u64) << 8u64) | ((b[2] as u64) << 16u64) | ((b[3] as u64)
        << 24u64) | ((b[4] as u64) << 32u64) | ((b[5] as u64) << 40u64) | ((b[6] as u64)
        << 48u64) | ((b[7] as u64) << 56u64)
}

/// The two little-endian bytes of `x`.
pub open spec fn u16_le_bytes(x: u16) -> Seq<u8> {
    seq![x as u8, (x >> 8u16) as u8]
}

/// The integer whose little-endian bytes start `b`.
pub open spec fn le_u16(b: Seq<u8>) -> u16
    recommends
        b.len() >= 2,
{
    (b[0] as u16) | ((b[1] as u16) << 8u16)
}

pub open spec fn status_byte(s: Status) -> u8 {
    match s {
        Status::Produced => 0,
        Status::InTransit => 1,
        Status::InStore => 2,
        Status::Sold => 3,
    }
}

pub open spec fn status_of_byte(b: u8) -> Option<Status> {
    if b == 0 {
        Some(Status::Produced)
    } else if b == 1 {
        Some(Status::InTransit)
    } else if b == 2 {
        Some(Status::InStore)
    } else if b == 3 {
        Some(Status::Sold)
    } else {
        None
    }
}

/// A byte string with a two-byte length prefix.
pub open spec fn encode_bytes16(b: Seq<u8>) -> Seq<u8> {
    u16_le_bytes(b.len() as u16) + b
}

pub open spec fn encode_metadata(m: Option<UrlView>) -> Seq<u8> {
    match m {
        None => seq![0u8],
        Some(u) => seq![1u8] + encode_bytes16(u.url) + match u.hash {
            None => seq![0u8],
            Some(h) => seq![1u8] + h,
        },
    }
}

/// The payload that the contract logs for an event: a tag byte, then the fields.
pub open spec fn event_bytes(e: EventView) -> Seq<u8> {
    match e {
        EventView::ItemCreated { item_id, metadata_url } => seq![0u8] + u64_le_bytes(item_id)
            + encode_metadata(metadata_url),
        EventView::ItemStatusChanged { item_id, new_status, additional_data } => seq![1u8]
            + u64_le_bytes(item_id) + seq![status_byte(new_status)] + encode_bytes16(
            additional_data,
        ),
    }
}

/// The events that have an encoding: byte strings short enough for their
/// length prefix, digests of 32 bytes.
pub open spec fn event_wf(e: EventView) -> bool {
    match e {
        EventView::ItemCreated { item_id, metadata_url } => match metadata_url {
            None => true,
            Some(u) => u.url.len() <= u16::MAX && match u.hash {
                None => true,
                Some(h) => h.len() == 32,
            },
        },
        EventView::ItemStatusChanged { item_id, new_status, additional_data } =>
            additional_data.len() <= u16::MAX,
    }
}

/// Reads a byte string with a two-byte length prefix that fills `b` exactly.
pub open spec fn parse_bytes16(b: Seq<u8>) -> Option<Seq<u8>> {
    if b.len() >= 2 && b.len() == 2 + le_u16(b) {
        Some(b.skip(2))
    } else {
        None
    }
}

/// Reads an optional digest that fills `b` exactly.
pub open spec fn parse_hash(b: Seq<u8>) -> Option<Option<Seq<u8>>> {
    if b.len() == 1 && b[0] == 0 {
        Some(None)
    } else if b.len() == 33 && b[0] == 1 {
        Some(Some(b.skip(1)))
    } else {
        None
    }
}

/// Reads optional metadata that fills `b` exactly.
pub open spec fn parse_metadata(b: Seq<u8>) -> Option<Option<UrlView>> {
    if b.len() == 1 && b[0] == 0 {
        Some(None)
    } else if b.len() >= 3 && b[0] == 1 && b.len() >= 3 + le_u16(b.skip(1)) {
        let n = le_u16(b.skip(1)) as int;
        match parse_hash(b.skip(3 + n)) {
            Some(h) => Some(Some(UrlView { url: b.subrange(3, 3 + n), hash: h })),
            None => None,
        }
    } else {
        None
    }
}

/// The event whose encoding is exactly `b`, if any.
pub open spec fn parse_event(b: Seq<u8>) -> Option<EventView> {
    if b.len() >= 9 && b[0] == 0 {
        match parse_metadata(b.skip(9)) {
            Some(m) => Some(EventView::ItemCreated { item_id: le_u64(b.skip(1)), metadata_url: m }),
            None => None,
        }
    } else if b.len() >= 10 && b[0] == 1 {
        match (status_of_byte(b[9]), parse_bytes16(b.skip(10))) {
            (Some(s), Some(d)) => Some(
                EventView::ItemStatusChanged {
                    item_id: le_u64(b.skip(1)),
                    new_status: s,
                    additional_data: d,
                },
            ),
            _ => None,
        }
    } else {
        None
    }
}

proof fn lemma_u64_round_trip(x: u64)
    ensures
        le_u64(u64_le_bytes(x)) == x,
{
    let b = u64_le_bytes(x);
    let (b0, b1, b2, b3, b4, b5, b6, b7) = (b[0], b[1], b[2], b[3], b[4], b[5], b[6], b[7]);
    assert(b0 == x as u8 && b1 == (x >> 8u64) as u8 && b2 == (x >> 16u64) as u8 && b3 == (x
        >> 24u64) as u8 && b4 == (x >> 32u64) as u8 && b5 == (x >> 40u64) as u8 && b6 == (x
        >> 48u64) as u8 && b7 == (x >> 56u64) as u8);
    assert((b0 as u64) | ((b1 as u64) << 8u64) | ((b2 as u64) << 16u64) | ((b3 as u64) << 24u64)
        | ((b4 as u64) << 32u64) | ((b5 as u64) << 40u64) | ((b6 as u64) << 48u64) | ((b7 as u64)
        << 56u64) == x) by (bit_vector)
        requires
            b0 == x as u8 && b1 == (x >> 8u64) as u8 && b2 == (x >> 16u64) as u8 && b3 == (x
                >> 24u64) as u8 && b4 == (x >> 32u64) as u8 && b5 == (x >> 40u64) as u8 && b6 == (x
                >> 48u64) as u8 && b7 == (x >> 56u64) as u8,
    ;
}

proof fn lemma_u64_bytes_of_le(b: Seq<u8>)
    requires
        b.len() >= 8,
    ensures
        u64_le_bytes(le_u64(b)) =~= b.take(8),
{
    let (b0, b1, b2, b3, b4, b5, b6, b7) = (b[0], b[1], b[2], b[3], b[4], b[5], b[6], b[7]);
    let x = le_u64(b);
    assert(x == (b0 as u64) | ((b1 as u64) << 8u64) | ((b2 as u64) << 16u64) | ((b3 as u64)
        << 24u64) | ((b4 as u64) << 32u64) | ((b5 as u64) << 40u64) | ((b6 as u64) << 48u64) | ((
    b7 as u64) << 56u64));
    assert(b0 == x as u8 && b1 == (x >> 8u64) as u8 && b2 == (x >> 16u64) as u8 && b3 == (x
        >> 24u64) as u8 && b4 == (x >> 32u64) as u8 && b5 == (x >> 40u64) as u8 && b6 == (x
        >> 48u64) as u8 && b7 == (x >> 56u64) as u8) by (bit_vector)
        requires
            x == (b0 as u64) | ((b1 as u64) << 8u64) | ((b2 as u64) << 16u64) | ((b3 as u64)
                << 24u64) | ((b4 as u64) << 32u64) | ((b5 as u64) << 40u64) | ((b6 as u64)
                << 48u64) | ((b7 as u64) << 56u64),
    ;
}

proof fn lemma_u16_round_trip(x: u16)
    ensures
        le_u16(u16_le_bytes(x)) == x,
{
    let b = u16_le_bytes(x);
    let (b0, b1) = (b[0], b[1]);
    assert(b0 == x as u8 && b1 == (x >> 8u16) as u8);
    assert((b0 as u16) | ((b1 as u16) << 8u16) == x) by (bit_vector)
        requires
            b0 == x as u8 && b1 == (x >> 8u16) as u8,
    ;
}

proof fn lemma_u16_bytes_of_le(b: Seq<u8>)
    requires
        b.len() >= 2,
    ensures
        u16_le_bytes(le_u16(b)) =~= b.take(2),
{
    let (b0, b1) = (b[0], b[1]);
    let x = le_u16(b);
    assert(x == (b0 as u16) | ((b1 as u16) << 8u16));
    assert(b0 == x as u8 && b1 == (x >> 8u16) as u8) by (bit_vector)
        requires
            x == (b0 as u16) | ((b1 as u16) << 8u16),
    ;
}

fn read_u64(b: &[u8], pos: usize) -> (r: u64)
    requires
        pos + 8 <= b@.len(),
    ensures
        r == le_u64(b@.skip(pos as int)),
{
    let s = Ghost(b@.skip(pos as int));
    assert(s@[0] == b@[pos as int] && s@[1] == b@[pos + 1] && s@[2] == b@[pos + 2] && s@[3]
        == b@[pos + 3] && s@[4] == b@[pos + 4] && s@[5] == b@[pos + 5] && s@[6] == b@[pos + 6]
        && s@[7] == b@[pos + 7]);
    (b[pos] as u64) | ((b[pos + 1] as u64) << 8u64) | ((b[pos + 2] as u64) << 16u64) | ((b[pos
        + 3] as u64) << 24u64) | ((b[pos + 4] as u64) << 32u64) | ((b[pos + 5] as u64) << 40u64)
        | ((b[pos + 6] as u64) << 48u64) | ((b[pos + 7] as u64) << 56u64)
}

fn read_u16(b: &[u8], pos: usize) -> (r: u16)
    requires
        pos + 2 <= b@.len(),
    ensures
        r == le_u16(b@.skip(pos as int)),
{
    let s = Ghost(b@.skip(pos as int));
    assert(s@[0] == b@[pos as int] && s@[1] == b@[pos + 1]);
    (b[pos] as u16) | ((b[pos + 1] as u16) << 8u16)
}

/// Copies `b[start..end]` into a new vector.
fn copy_range(b: &[u8], start: usize, end: usize) -> (r: Vec<u8>)
    requires
        start <= end <= b@.len(),
    ensures
        r@ == b@.subrange(start as int, end as int),
{
    let mut r: Vec<u8> = Vec::new();
    let mut i: usize = start;
    while i < end
        invariant
            start <= i <= end <= b@.len(),
            r@ == b@.subrange(start as int, i as int),
        decreases end - i,
    {
        r.push(b[i]);
        i += 1;
        proof {
            assert(r@ =~= b@.subrange(start as int, i as int));
        }
    }
    r
}

fn status_from_byte(b: u8) -> (r: Option<Status>)
    ensures
        r == status_of_byte(b),
{
    if b == 0 {
        Some(Status::Produced)
    } else if b == 1 {
        Some(Status::InTransit)
    } else if b == 2 {
        Some(Status::InStore)
    } else if b == 3 {
        Some(Status::Sold)
    } else {
        None
    }
}

/// Reads the length-prefixed byte string that fills `b[start..]`.
fn decode_bytes16(b: &[u8], start: usize) -> (r: Option<Vec<u8>>)
    requires
        start <= b@.len(),
    ensures
        match r {
            Some(v) => parse_bytes16(b@.skip(start as int)) == Some(v@),
            None => parse_bytes16(b@.skip(start as int)) is None,
        },
{
    let rest = b.len() - start;
    if rest >= 2 {
        let n = read_u16(b, start);
        if rest == 2 + n as usize {
            let v = copy_range(b, start + 2, b.len());
            proof {
                assert(v@ =~= b@.skip(start as int).skip(2));
            }
            return Some(v);
        }
    }
    None
}

/// Reads the optional digest that fills `b[start..]`.
fn decode_hash(b: &[u8], start: usize) -> (r: Option<Option<Sha256>>)
    requires
        start <= b@.len(),
    ensures
        match r {
            Some(Some(h)) => parse_hash(b@.skip(start as int)) == Some(Some(h@)),
            Some(None) => parse_hash(b@.skip(start as int)) == Some(None::<Seq<u8>>),
            None => parse_hash(b@.skip(start as int)) is None,
        },
{
    let rest = b.len() - start;
    if rest == 1 && b[start] == 0 {
        Some(None)
    } else if rest == 33 && b[start] == 1 {
        let bytes = copy_range(b, start + 1, b.len());
        match Sha256::try_from(bytes.as_slice()) {
            Ok(h) => {
                proof {
                    assert(h@ =~= b@.skip(start as int).skip(1));
                }
                Some(Some(h))
            },
            Err(_) => None,
        }
    } else {
        None
    }
}

/// Reads the optional metadata that fills `b[start..]`.
fn decode_metadata(b: &[u8], start: usize) -> (r: Option<Option<MetadataUrl>>)
    requires
        start <= b@.len(),
    ensures
        match r {
            Some(Some(m)) => parse_metadata(b@.skip(start as int)) == Some(Some(m@)),
            Some(None) => parse_metadata(b@.skip(start as int)) == Some(None::<UrlView>),
            None => parse_metadata(b@.skip(start as int)) is None,
        },
{
    let ghost s = b@.skip(start as int);
    let rest = b.len() - start;
    if rest == 1 && b[start] == 0 {
        return Some(None);
    }
    if rest >= 3 && b[start] == 1 {
        let n = read_u16(b, start + 1);
        proof {
            assert(b@.skip(start + 1) =~= s.skip(1));
        }
        if rest >= 3 + n as usize {
            let end = start + 3 + n as usize;
            let url = copy_range(b, start + 3, end);
            proof {
                assert(b@.skip(end as int) =~= s.skip(3 + n));
                assert(url@ =~= s.subrange(3, 3 + n));
            }
            return match decode_hash(b, end) {
                Some(hash) => Some(Some(MetadataUrl { url, hash })),
                None => None,
            };
        }
    }
    None
}

/// Decodes an event payload of the tracked contract.
///
/// Each known schema is tried in turn; a payload that matches none, or that
/// has bytes left over, is an error.
pub fn decode_event(b: &[u8]) -> (r: Result<DomainEvent, DecodeError>)
    ensures
        match r {
            Ok(e) => parse_event(b@) == Some(e@),
            Err(_) => parse_event(b@) is None,
        },
{
    let n = b.len();
    if n >= 9 && b[0] == 0 {
        let item_id = read_u64(b, 1);
        match decode_metadata(b, 9) {
            Some(metadata_url) => Ok(DomainEvent::ItemCreated { item_id, metadata_url }),
            None => Err(DecodeError),
        }
    } else if n >= 10 && b[0] == 1 {
        let item_id = read_u64(b, 1);
        match (status_from_byte(b[9]), decode_bytes16(b, 10)) {
            (Some(new_status), Some(additional_data)) => Ok(
                DomainEvent::ItemStatusChanged { item_id, new_status, additional_data },
            ),
            _ => Err(DecodeError),
        }
    } else {
        Err(DecodeError)
    }
}

proof fn lemma_le_u64_prefix(a: Seq<u8>, b: Seq<u8>)
    requires
        a.len() >= 8,
        b.len() >= 8,
        forall|k: int| 0 <= k < 8 ==> a[k] == b[k],
    ensures
        le_u64(a) == le_u64(b),
{
    assert(a[0] == b[0] && a[1] == b[1] && a[2] == b[2] && a[3] == b[3]);
    assert(a[4] == b[4] && a[5] == b[5] && a[6] == b[6] && a[7] == b[7]);
}

proof fn lemma_le_u16_prefix(a: Seq<u8>, b: Seq<u8>)
    requires
        a.len() >= 2,
        b.len() >= 2,
        a[0] == b[0],
        a[1] == b[1],
    ensures
        le_u16(a) == le_u16(b),
{
}

proof fn lemma_parse_metadata_bytes(m: Option<UrlView>)
    requires
        match m {
            None => true,
            Some(u) => u.url.len() <= u16::MAX && match u.hash {
                None => true,
                Some(h) => h.len() == 32,
            },
        },
    ensures
        parse_metadata(encode_metadata(m)) == Some(m),
{
    let md = encode_metadata(m);
    match m {
        None => {},
        Some(u) => {
            let n = u.url.len() as u16;
            let tail = match u.hash {
                None => seq![0u8],
                Some(h) => seq![1u8] + h,
            };
            assert(md =~= seq![1u8] + u16_le_bytes(n) + u.url + tail);
            lemma_u16_round_trip(n);
            assert(md.skip(1)[0] == u16_le_bytes(n)[0] && md.skip(1)[1] == u16_le_bytes(n)[1]);
            lemma_le_u16_prefix(md.skip(1), u16_le_bytes(n));
            assert(md.skip(3 + n) =~= tail);
            assert(md.subrange(3, 3 + n) =~= u.url);
            match u.hash {
                None => {},
                Some(h) => {
                    assert(tail.skip(1) =~= h);
                },
            }
        },
    }
}

proof fn lemma_item_id_bytes(b: Seq<u8>, item_id: u64)
    requires
        b.len() >= 9,
        forall|k: int| 0 <= k < 8 ==> b[k + 1] == u64_le_bytes(item_id)[k],
    ensures
        le_u64(b.skip(1)) == item_id,
{
    lemma_u64_round_trip(item_id);
    assert forall|k: int| 0 <= k < 8 implies b.skip(1)[k] == u64_le_bytes(item_id)[k] by {
        assert(b.skip(1)[k] == b[k + 1]);
    }
    lemma_le_u64_prefix(b.skip(1), u64_le_bytes(item_id));
}

proof fn lemma_parse_created_bytes(item_id: u64, metadata_url: Option<UrlView>)
    requires
        event_wf(EventView::ItemCreated { item_id, metadata_url }),
    ensures
        parse_event(event_bytes(EventView::ItemCreated { item_id, metadata_url })) == Some(
            EventView::ItemCreated { item_id, metadata_url },
        ),
{
    let b = event_bytes(EventView::ItemCreated { item_id, metadata_url });
    lemma_item_id_bytes(b, item_id);
    assert(b.skip(9) =~= encode_metadata(metadata_url));
    lemma_parse_metadata_bytes(metadata_url);
}

proof fn lemma_parse_status_changed_bytes(item_id: u64, new_status: Status, data: Seq<u8>)
    requires
        data.len() <= u16::MAX,
    ensures
        parse_event(
            event_bytes(
                EventView::ItemStatusChanged { item_id, new_status, additional_data: data },
            ),
        ) == Some(EventView::ItemStatusChanged { item_id, new_status, additional_data: data }),
{
    let b = event_bytes(
        EventView::ItemStatusChanged { item_id, new_status, additional_data: data },
    );
    lemma_item_id_bytes(b, item_id);
    let n = data.len() as u16;
    let d = encode_bytes16(data);
    assert(b.skip(10) =~= d);
    lemma_u16_round_trip(n);
    lemma_le_u16_prefix(d, u16_le_bytes(n));
    assert(d.skip(2) =~= data);
    assert(b[9] == status_byte(new_status));
}

/// Decoding the encoding of an event gives the event back.
pub proof fn lemma_parse_event_bytes(e: EventView)
    requires
        event_wf(e),
    ensures
        parse_event(event_bytes(e)) == Some(e),
{
    match e {
        EventView::ItemCreated { item_id, metadata_url } => {
            lemma_parse_created_bytes(item_id, metadata_url);
        },
        EventView::ItemStatusChanged { item_id, new_status, additional_data } => {
            lemma_parse_status_changed_bytes(item_id, new_status, additional_data);
        },
    }
}

/// A payload that decodes to an event is exactly that event's encoding, so
/// no two payloads decode to the same event.
pub proof fn lemma_event_bytes_of_parse(b: Seq<u8>)
    requires
        parse_event(b) is Some,
    ensures
        event_wf(parse_event(b)->0),
        event_bytes(parse_event(b)->0) == b,
{
    let e = parse_event(b)->0;
    lemma_u64_bytes_of_le(b.skip(1));
    if b[0] == 0 {
        let md = b.skip(9);
        if md.len() == 1 && md[0] == 0 {
            assert(b =~= seq![0u8] + u64_le_bytes(le_u64(b.skip(1))) + seq![0u8]);
        } else {
            let n = le_u16(md.skip(1));
            lemma_u16_bytes_of_le(md.skip(1));
            let rest = md.skip(3 + n);
            if rest.len() == 1 {
                assert(b =~= seq![0u8] + u64_le_bytes(le_u64(b.skip(1))) + (seq![1u8]
                    + encode_bytes16(md.subrange(3, 3 + n)) + seq![0u8]));
            } else {
                assert(b =~= seq![0u8] + u64_le_bytes(le_u64(b.skip(1))) + (seq![1u8]
                    + encode_bytes16(md.subrange(3, 3 + n)) + (seq![1u8] + rest.skip(1))));
            }
        }
    } else {
        let d = b.skip(10);
        lemma_u16_bytes_of_le(d);
        assert(b =~= seq![1u8] + u64_le_bytes(le_u64(b.skip(1))) + seq![b[9]] + encode_bytes16(
            d.skip(2),
        ));
    }
}

fn push_u64(v: &mut Vec<u8>, x: u64)
    ensures
        final(v)@ == old(v)@ + u64_le_bytes(x),
{
    v.push(x as u8);
    v.push((x >> 8u64) as u8);
    v.push((x >> 16u64) as u8);
    v.push((x >> 24u64) as u8);
    v.push((x >> 32u64) as u8);
    v.push((x >> 40u64) as u8);
    v.push((x >> 48u64) as u8);
    v.push((x >> 56u64) as u8);
    proof {
        assert(v@ =~= old(v)@ + u64_le_bytes(x));
    }
}

fn push_all(v: &mut Vec<u8>, b: &[u8])
    ensures
        final(v)@ == old(v)@ + b@,
{
    let mut i: usize = 0;
    while i < b.len()
        invariant
            i <= b@.len(),
            v@ == old(v)@ + b@.take(i as int),
        decreases b@.len() - i,
    {
        v.push(b[i]);
        i += 1;
        proof {
            assert(v@ =~= old(v)@ + b@.take(i as int));
        }
    }
    proof {
        assert(b@.take(i as int) =~= b@);
    }
}

/// Appends `b` with its two-byte length prefix.
fn push_bytes16(v: &mut Vec<u8>, b: &[u8])
    requires
        b@.len() <= u16::MAX,
    ensures
        final(v)@ == old(v)@ + encode_bytes16(b@),
{
    let n = b.len() as u16;
    v.push(n as u8);
    v.push((n >> 8u16) as u8);
    push_all(v, b);
    proof {
        assert(v@ =~= old(v)@ + encode_bytes16(b@));
    }
}

fn status_to_byte(s: Status) -> (r: u8)
    ensures
        r == status_byte(s),
{
    match s {
        Status::Produced => 0,
        Status::InTransit => 1,
        Status::InStore => 2,
        Status::Sold => 3,
    }
}

/// Encodes an event as the contract logs it.
pub fn encode_event(e: &DomainEvent) -> (r: Vec<u8>)
    requires
        event_wf(e@),
    ensures
        r@ == event_bytes(e@),
{
    let mut v: Vec<u8> = Vec::new();
    match e {
        DomainEvent::ItemCreated { item_id, metadata_url } => {
            v.push(0u8);
            push_u64(&mut v, *item_id);
            let ghost head = v@;
            match metadata_url {
                None => {
                    v.push(0u8);
                },
                Some(m) => {
                    v.push(1u8);
                    push_bytes16(&mut v, m.url.as_slice());
                    match &m.hash {
                        None => {
                            v.push(0u8);
                        },
                        Some(h) => {
                            v.push(1u8);
                            push_all(&mut v, h.0.as_slice());
                        },
                    }
                },
            }
            proof {
                assert(v@ =~= head + encode_metadata(e@->ItemCreated_metadata_url));
            }
        },
        DomainEvent::ItemStatusChanged { item_id, new_status, additional_data } => {
            v.push(1u8);
            push_u64(&mut v, *item_id);
            v.push(status_to_byte(*new_status));
            push_bytes16(&mut v, additional_data.as_slice());
        },
    }
    proof {
        assert(v@ =~= event_bytes(e@));
    }
    v
}

impl DomainEvent {
    /// An independent copy of this event.
    pub fn duplicate(&self) -> (r: DomainEvent)
        ensures
            r@ == self@,
    {
        match self {
            DomainEvent::ItemCreated { item_id, metadata_url } => {
                let metadata_url = match metadata_url {
                    None => None,
                    Some(m) => Some(
                        MetadataUrl {
                            url: copy_range(m.url.as_slice(), 0, m.url.len()),
                            hash: m.hash,
                        },
                    ),
                };
                proof {
                    match &metadata_url {
                        Some(c) => {
                            assert(c.url@ =~= self@->ItemCreated_metadata_url->0.url);
                        },
                        None => {},
                    }
                }
                DomainEvent::ItemCreated { item_id: *item_id, metadata_url }
            },
            DomainEvent::ItemStatusChanged { item_id, new_status, additional_data } => {
                let data = copy_range(additional_data.as_slice(), 0, additional_data.len());
                proof {
                    assert(data@ =~= additional_data@);
                }
                DomainEvent::ItemStatusChanged {
                    item_id: *item_id,
                    new_status: *new_status,
                    additional_data: data,
                }
            },
        }
    }
}

} // verus!
