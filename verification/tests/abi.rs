use one_collect::abi::{
    align_to_perf_record, perf_event_attr, Header, Sample, FLAG_SAMPLE_ID_ALL, PERF_SAMPLE_IDENTIFIER, PERF_SAMPLE_TID,
    PERF_SAMPLE_TIME,
};

#[test]
fn header_rw() {
    let mut data = Vec::new();
    let magic: u32 = 1234;
    let magic_slice = magic.to_ne_bytes();

    Header::write(1024, 0, &magic_slice, &mut data);

    let slice = data.as_slice();

    let header = Header::from_slice(slice).unwrap();

    assert_eq!(1024, header.entry_type);
    assert_eq!(0, header.misc);
    assert_eq!(16, header.size);

    let data_slice = header.data;
    let magic_slice = data_slice[0..4].try_into().unwrap();
    assert_eq!(1234, u32::from_ne_bytes(magic_slice));

    assert_eq!([0u8; 4], data_slice[4..8]);
}

#[test]
fn sample_raw_aligned() {
    let mut data = Vec::new();
    let raw = [1u8, 2u8, 3u8];
    let len = raw.len() as u32;
    let field_size = 4 + raw.len();
    let aligned_field_size = align_to_perf_record(field_size);
    let padding = aligned_field_size - field_size;

    data.extend_from_slice(&len.to_ne_bytes());
    data.extend_from_slice(&raw);
    if padding > 0 {
        data.resize(data.len() + padding, 0);
    }

    assert_eq!(8, data.len());
    assert_eq!(3u32.to_ne_bytes(), data[0..4]);
    assert_eq!([1u8, 2u8, 3u8], data[4..7]);
    assert_eq!(0u8, data[7]);
}

#[test]
fn align_rounds_up_to_eight() {
    assert_eq!(0, align_to_perf_record(0));
    assert_eq!(8, align_to_perf_record(1));
    assert_eq!(8, align_to_perf_record(8));
    assert_eq!(16, align_to_perf_record(9));
    assert_eq!(24, align_to_perf_record(17));
}

#[test]
fn header_write_pads_and_sets_size() {
    let mut data = vec![0xEEu8];
    Header::write(9, 0x4000, &[1u8, 2, 3, 4, 5], &mut data);
    assert_eq!(17, data.len());
    assert_eq!(0xEE, data[0]);
    let header = Header::from_slice(&data[1..]).unwrap();
    assert_eq!(9, header.entry_type);
    assert_eq!(0x4000, header.misc);
    assert_eq!(16, header.size);
    assert_eq!([1u8, 2, 3, 4, 5, 0, 0, 0], header.data[0..8]);
}

#[test]
fn header_data_offset_is_eight() {
    assert_eq!(8, Header::data_offset());
}

#[test]
fn sample_write_time_is_little_endian() {
    let mut out = vec![7u8];
    Sample::write_time(0x0102030405060708, &mut out);
    assert_eq!(vec![7u8, 8, 7, 6, 5, 4, 3, 2, 1], out);
}

#[test]
fn attr_flags_and_formats() {
    let mut attr = perf_event_attr::default();
    assert_eq!(0, attr.sample_type);
    attr.sample_type = PERF_SAMPLE_IDENTIFIER | PERF_SAMPLE_TID;
    attr.flags = 0x41;
    attr.read_format = 0x4;
    assert!(attr.has_format(PERF_SAMPLE_TID));
    assert!(attr.has_format(PERF_SAMPLE_IDENTIFIER | PERF_SAMPLE_TID));
    assert!(!attr.has_format(PERF_SAMPLE_TIME));
    assert!(!attr.has_format(PERF_SAMPLE_TID | PERF_SAMPLE_TIME));
    assert!(attr.has_flag(0x40));
    assert!(!attr.has_flag(0x2));
    assert!(attr.has_read_format(0x4));
    assert!(!attr.has_read_format(0x1));
}

#[test]
fn non_sampled_id_offsets_follow_sample_id_all() {
    let mut attr = perf_event_attr::default();
    attr.sample_type = PERF_SAMPLE_TID | PERF_SAMPLE_TIME | PERF_SAMPLE_IDENTIFIER;
    assert!(attr.non_sampled_id_offsets().is_none());

    attr.flags = FLAG_SAMPLE_ID_ALL;
    let offsets = attr.non_sampled_id_offsets().unwrap();
    assert_eq!(Some(0), offsets.pid);
    assert_eq!(Some(4), offsets.tid);
    assert_eq!(Some(8), offsets.time);
    assert_eq!(None, offsets.id);
    assert_eq!(None, offsets.stream_id);
    assert_eq!(None, offsets.cpu);
    assert_eq!(Some(16), offsets.identifier);
    assert_eq!(24, offsets.size);
}
