use cidrwall::wire::{
    bytes_to_word, remove_top_level_attribute, AlignedNetlinkBuffer, DeviceArray, Flowtable, NetlinkRequest,
    SetInfo, WireError, GET_FLOWTABLE, GET_SET, GET_TABLE,
};

const HEADER: usize = 16;
const ATTRIBUTE_OFFSET: usize = HEADER + 4;

fn nft_message_type(message: u16) -> u16 {
    (10 << 8) | message
}

fn u16_at(bytes: &[u8], at: usize) -> u16 {
    u16::from_ne_bytes([bytes[at], bytes[at + 1]])
}

fn u32_at(bytes: &[u8], at: usize) -> u32 {
    u32::from_ne_bytes([bytes[at], bytes[at + 1], bytes[at + 2], bytes[at + 3]])
}

fn set_message_len(message: &mut [u8], len: usize) {
    message[0..4].copy_from_slice(&(len as u32).to_ne_bytes());
}

fn synthetic_message(attributes: &[(u16, &[u8])]) -> Vec<u8> {
    let mut buffer = AlignedNetlinkBuffer::new(4096);
    let mut len = ATTRIBUTE_OFFSET;
    for (kind, payload) in attributes {
        let size = 4 + payload.len();
        let bytes = buffer.as_bytes_mut();
        bytes[len..len + 2].copy_from_slice(&(size as u16).to_ne_bytes());
        bytes[len + 2..len + 4].copy_from_slice(&kind.to_ne_bytes());
        bytes[len + 4..len + size].copy_from_slice(payload);
        len += size.next_multiple_of(4);
    }
    set_message_len(buffer.as_bytes_mut(), len);
    buffer.prefix(len).unwrap().to_vec()
}

fn top_level_attributes(message: &[u8]) -> Vec<(u16, Vec<u8>)> {
    let mut attributes = Vec::new();
    let mut offset = ATTRIBUTE_OFFSET;
    while offset + 4 <= message.len() {
        let len = u16_at(message, offset) as usize;
        assert!(len >= 4);
        assert!(offset + len <= message.len());
        attributes.push((
            u16_at(message, offset + 2) & 0x3fff,
            message[offset + 4..offset + len].to_vec(),
        ));
        offset += len.next_multiple_of(4);
    }
    assert_eq!(offset, message.len());
    attributes
}

#[test]
fn aligned_buffer_rounds_capacity_and_is_aligned() {
    let buffer = AlignedNetlinkBuffer::new(17);
    assert!(buffer.capacity() >= 17);
    assert_eq!(buffer.capacity() % size_of::<u64>(), 0);
    assert_eq!(buffer.as_bytes().as_ptr() as usize % align_of::<u32>(), 0);
    assert_eq!(buffer.capacity(), 24);
    assert_eq!(AlignedNetlinkBuffer::new(0).capacity(), 16);
    for capacity in 0..300 {
        let buffer = AlignedNetlinkBuffer::new(capacity);
        assert_eq!(buffer.as_bytes().as_ptr() as usize % align_of::<u64>(), 0);
        assert_eq!(buffer.as_bytes(), vec![0; buffer.capacity()]);
    }
}

#[test]
fn the_next_word_is_less_than_a_word_away() {
    assert_eq!([0, 1, 7, 8, 9].map(bytes_to_word), [0, 7, 1, 0, 7]);
    assert_eq!(bytes_to_word(usize::MAX), 1);
}

#[test]
fn what_is_written_to_a_buffer_is_read_from_it() {
    let mut buffer = AlignedNetlinkBuffer::new(20);
    buffer.as_bytes_mut()[23] = 7;
    buffer.as_bytes_mut()[0] = 9;
    assert_eq!((buffer.as_bytes()[0], buffer.as_bytes()[23]), (9, 7));
    assert_eq!(buffer.prefix(1).unwrap(), [9]);
}

#[test]
fn aligned_buffer_rejects_an_oversized_prefix() {
    let buffer = AlignedNetlinkBuffer::new(32);
    assert!(buffer.prefix(buffer.capacity() + 1).is_err());
    assert_eq!(buffer.prefix(33), Err(WireError::Oversized));
    assert_eq!(buffer.prefix(32).unwrap(), [0; 32]);
    assert_eq!(
        WireError::Oversized.as_str(),
        "netlink message exceeds its aligned buffer"
    );
}

#[test]
fn top_level_attribute_removal_preserves_message_framing() {
    let attributes: &[(u16, &[u8])] = &[(11, b"a"), (12, b"bc"), (13, b"def")];
    for target in [11, 12, 13] {
        let mut message = synthetic_message(attributes);
        let original_len = message.len();
        remove_top_level_attribute(&mut message, target);
        let len = u32_at(&message, 0) as usize;
        assert!(len < original_len);
        assert_eq!(
            top_level_attributes(&message[..len]),
            attributes
                .iter()
                .filter(|(kind, _)| *kind != target)
                .map(|(kind, payload)| (*kind, payload.to_vec()))
                .collect::<Vec<_>>()
        );
    }

    let mut absent = synthetic_message(attributes);
    let before = absent.clone();
    remove_top_level_attribute(&mut absent, 99);
    assert_eq!(absent, before);
}

#[test]
fn top_level_attribute_removal_rejects_malformed_lengths() {
    let mut undersized = synthetic_message(&[(11, b"a")]);
    undersized[ATTRIBUTE_OFFSET..ATTRIBUTE_OFFSET + 2].copy_from_slice(&3u16.to_ne_bytes());
    let before = undersized.clone();
    remove_top_level_attribute(&mut undersized, 11);
    assert_eq!(undersized, before);

    let mut truncated = synthetic_message(&[(11, b"a")]);
    set_message_len(&mut truncated, ATTRIBUTE_OFFSET + 5);
    truncated.truncate(ATTRIBUTE_OFFSET + 5);
    let before = truncated.clone();
    remove_top_level_attribute(&mut truncated, 11);
    assert_eq!(truncated, before);

    let mut oversized = synthetic_message(&[(11, b"a")]);
    oversized[ATTRIBUTE_OFFSET..ATTRIBUTE_OFFSET + 2].copy_from_slice(&32u16.to_ne_bytes());
    let before = oversized.clone();
    remove_top_level_attribute(&mut oversized, 11);
    assert_eq!(oversized, before);
}

#[test]
fn attribute_flags_do_not_hide_a_type() {
    let mut message = synthetic_message(&[(0x8000 | 4, b"abcd"), (2, b"name")]);
    remove_top_level_attribute(&mut message, 4);
    assert_eq!(u32_at(&message, 0) as usize, ATTRIBUTE_OFFSET + 8);
    assert_eq!(
        top_level_attributes(&message[..ATTRIBUTE_OFFSET + 8]),
        [(2, b"name".to_vec())]
    );
}

#[test]
fn table_and_set_dump_requests_have_expected_headers() {
    for (request, message_type, seq) in [
        (NetlinkRequest::table_dump(17), GET_TABLE, 17),
        (NetlinkRequest::set_dump(23), GET_SET, 23),
    ] {
        let bytes = request.as_bytes();
        assert_eq!(u16_at(bytes, 4), nft_message_type(message_type));
        assert_eq!(u32_at(bytes, 8), seq);
        assert_ne!(u16_at(bytes, 6) & 1, 0);
        assert_ne!(u16_at(bytes, 6) & 0x300, 0);
        assert_eq!(bytes[HEADER], 0);
    }
}

#[test]
fn flowtable_request_is_bounded_and_contains_a_header() {
    let request = NetlinkRequest::flowtable_dump(7);
    let bytes = request.as_bytes();
    assert!(bytes.len() >= HEADER);
    assert!(bytes.len() <= 4096);
    assert_eq!(u16_at(bytes, 4), nft_message_type(GET_FLOWTABLE));
    assert_eq!(u32_at(bytes, 8), 7);
    assert_ne!(u16_at(bytes, 6) & 1, 0);
    assert_ne!(u16_at(bytes, 6) & 0x300, 0);
    assert_eq!(bytes[HEADER], 0);
    assert_eq!(u32_at(bytes, 0) as usize, bytes.len());
}

#[test]
fn set_count_parses_valid_and_missing_attributes() {
    let count = synthetic_message(&[
        (7, b"ignored"),
        (19, b"rbtree\0"),
        (20, &4_228_762u32.to_be_bytes()),
    ]);
    assert_eq!(SetInfo::count(&count), Some(4_228_762));

    let missing = synthetic_message(&[(7, b"ignored"), (19, b"rbtree\0")]);
    assert_eq!(SetInfo::count(&missing), None);

    let short_count = synthetic_message(&[(20, &[0, 1, 2])]);
    assert_eq!(SetInfo::count(&short_count), None);
}

#[test]
fn set_count_rejects_malformed_messages() {
    let mut too_short = synthetic_message(&[]);
    set_message_len(&mut too_short, HEADER);
    assert_eq!(SetInfo::count(&too_short[..HEADER]), None);
    assert_eq!(SetInfo::count(&too_short), None);

    let mut undersized = synthetic_message(&[(20, &1u32.to_be_bytes())]);
    undersized[ATTRIBUTE_OFFSET..ATTRIBUTE_OFFSET + 2].copy_from_slice(&3u16.to_ne_bytes());
    assert_eq!(SetInfo::count(&undersized), None);

    let mut truncated = synthetic_message(&[(20, &1u32.to_be_bytes())]);
    truncated[ATTRIBUTE_OFFSET..ATTRIBUTE_OFFSET + 2].copy_from_slice(&12u16.to_ne_bytes());
    assert_eq!(SetInfo::count(&truncated), None);
}

fn flowtable(names: &[&[u8]]) -> Flowtable {
    let mut slots: Vec<Option<Vec<u8>>> = names.iter().map(|name| Some(name.to_vec())).collect();
    slots.push(None);
    Flowtable {
        devices: DeviceArray::Slots(slots),
    }
}

#[test]
fn flowtable_devices_round_trip_through_libnftnl() {
    assert_eq!(flowtable(&[b"wan0"]).device_names().unwrap(), vec!["wan0"]);
    assert_eq!(
        flowtable(&[b"wan0", b"lan0", b"guest0"]).device_names().unwrap(),
        vec!["wan0", "lan0", "guest0"]
    );
}

#[test]
fn flowtable_without_devices_fails_closed() {
    let unset = Flowtable { devices: DeviceArray::Unset };
    assert!(unset.device_names().unwrap_err().as_str().contains("no device array"));
    let null = Flowtable { devices: DeviceArray::Null };
    assert_eq!(null.device_names(), Err(WireError::NullDevices));
    let endless = Flowtable { devices: DeviceArray::Slots(vec![Some(b"eth0".to_vec()); 5000]) };
    assert_eq!(endless.device_names(), Err(WireError::UnterminatedDevices));
}

#[test]
fn flowtable_with_invalid_utf8_device_fails_closed() {
    let error = flowtable(&[b"wan\xff"]).device_names().unwrap_err();
    assert_eq!(error, WireError::DeviceName);
    assert!(error.as_str().contains("not UTF-8"));
}
