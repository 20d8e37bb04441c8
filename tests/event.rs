use indexer::event::{decode_event, encode_event, DecodeError, DomainEvent, MetadataUrl, Status};
use indexer::types::{IncorrectLength, Sha256};

fn created(item_id: u64, url: Option<(&str, Option<[u8; 32]>)>) -> DomainEvent {
    DomainEvent::ItemCreated {
        item_id,
        metadata_url: url.map(|(u, h)| MetadataUrl { url: u.as_bytes().to_vec(), hash: h.map(Sha256) }),
    }
}

fn same(a: &DomainEvent, b: &DomainEvent) -> bool {
    format!("{:?}", a) == format!("{:?}", b)
}

#[test]
fn encode_item_created_without_metadata() {
    let bytes = encode_event(&created(258, None));
    assert_eq!(bytes, vec![0, 2, 1, 0, 0, 0, 0, 0, 0, 0]);
}

#[test]
fn encode_item_status_changed_exact_bytes() {
    let e = DomainEvent::ItemStatusChanged {
        item_id: 7,
        new_status: Status::InTransit,
        additional_data: vec![9, 8, 7],
    };
    assert_eq!(encode_event(&e), vec![1, 7, 0, 0, 0, 0, 0, 0, 0, 1, 3, 0, 9, 8, 7]);
}

#[test]
fn encode_item_created_with_url_and_hash() {
    let e = created(1, Some(("ab", Some([5u8; 32]))));
    let bytes = encode_event(&e);
    let mut expected = vec![0, 1, 0, 0, 0, 0, 0, 0, 0, 1, 2, 0, b'a', b'b', 1];
    expected.extend_from_slice(&[5u8; 32]);
    assert_eq!(bytes, expected);
}

#[test]
fn decode_round_trips_every_shape() {
    let events = vec![
        created(0, None),
        created(u64::MAX, Some(("https://some.example/", None))),
        created(3, Some(("", Some([0xAB; 32])))),
        DomainEvent::ItemStatusChanged { item_id: 0, new_status: Status::Produced, additional_data: vec![] },
        DomainEvent::ItemStatusChanged { item_id: 12, new_status: Status::Sold, additional_data: vec![1; 300] },
        DomainEvent::ItemStatusChanged { item_id: 12, new_status: Status::InStore, additional_data: vec![2] },
    ];
    for e in &events {
        let decoded = decode_event(&encode_event(e)).expect("decodes");
        assert!(same(&decoded, e), "{:?} vs {:?}", decoded, e);
    }
}

#[test]
fn decode_rejects_unknown_tag() {
    let mut bytes = encode_event(&created(1, None));
    bytes[0] = 2;
    assert_eq!(decode_event(&bytes).unwrap_err(), DecodeError);
}

#[test]
fn decode_rejects_empty_payload() {
    assert!(decode_event(&[]).is_err());
}

#[test]
fn decode_rejects_truncated_payload() {
    let bytes = encode_event(&created(1, Some(("abc", None))));
    for n in 0..bytes.len() {
        assert!(decode_event(&bytes[..n]).is_err(), "prefix of length {}", n);
    }
}

#[test]
fn decode_rejects_trailing_bytes() {
    let mut bytes = encode_event(&DomainEvent::ItemStatusChanged {
        item_id: 1,
        new_status: Status::Sold,
        additional_data: vec![4],
    });
    bytes.push(0);
    assert!(decode_event(&bytes).is_err());
}

#[test]
fn decode_rejects_unknown_status() {
    let mut bytes = encode_event(&DomainEvent::ItemStatusChanged {
        item_id: 1,
        new_status: Status::Sold,
        additional_data: vec![],
    });
    bytes[9] = 4;
    assert!(decode_event(&bytes).is_err());
}

#[test]
fn decode_rejects_short_hash() {
    let mut bytes = encode_event(&created(1, Some(("u", Some([1; 32])))));
    bytes.pop();
    assert!(decode_event(&bytes).is_err());
}

#[test]
fn sha256_from_slice_of_32_bytes() {
    let bytes: Vec<u8> = (0u8..32).collect();
    let h = Sha256::try_from(&bytes[..]).expect("32 bytes");
    assert_eq!(h.0.to_vec(), bytes);
}

#[test]
fn sha256_from_slice_of_wrong_length() {
    assert_eq!(Sha256::try_from(&[0u8; 31][..]).unwrap_err(), IncorrectLength);
    assert_eq!(Sha256::try_from(&[0u8; 33][..]).unwrap_err(), IncorrectLength);
}

#[test]
fn duplicate_keeps_the_event() {
    let e = created(4, Some(("x", Some([3; 32]))));
    assert!(same(&e.duplicate(), &e));
}
