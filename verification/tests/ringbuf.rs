use one_collect::abi::{Header, PERF_RECORD_LOST};
use one_collect::ringbuf::{
    CpuRingCursor, CpuRingReader, InProcessRingBuf, InProcessRingBufWriter, RingBufError, WriteStep, WAIT_POLL_MS,
    WAIT_TIMEOUT_MS,
};

/// Writes `record` as a writer does: while there is no room, it counts
/// another poll interval of waiting and tries again, until the record is
/// written or dropped.
fn write_waiting(writer: &mut InProcessRingBufWriter, ring: &mut InProcessRingBuf, record: &[u8]) -> WriteStep {
    let mut waited = 0;
    loop {
        match writer.write(ring, record, waited) {
            WriteStep::Wait => waited += WAIT_POLL_MS,
            step => return step,
        }
    }
}

fn swap(source: &[u8], dest: &mut [u8]) {
    let mut i: usize = 0;

    for b in source {
        dest[i] = *b;
        i += 1;
    }
}

#[test]
fn reader() {
    let mut temp = Vec::new();

    let mut data = Vec::new();
    data.resize(2 * 4096, 0);

    let slice = data.as_mut_slice();

    /* Data Offset: 4096 */
    swap(&4096u64.to_ne_bytes(), &mut slice[1040..1048]);

    /* Data Size: 4096 */
    swap(&4096u64.to_ne_bytes(), &mut slice[1048..1056]);

    /* Write a few entries */
    let mut entry = Vec::new();

    /* 1 */
    Header::write(1024, 0, &1u64.to_ne_bytes(), &mut entry);

    /* 2 */
    Header::write(1024, 0, &2u64.to_ne_bytes(), &mut entry);

    /* 3 */
    Header::write(1024, 0, &3u64.to_ne_bytes(), &mut entry);

    /* Add entry to ring buffer */
    swap(entry.as_slice(), &mut slice[4096..]);

    /* Head position */
    swap(&(entry.len() as u64).to_ne_bytes(), &mut slice[1024..1032]);

    /* Tail position */
    swap(&0u64.to_ne_bytes(), &mut slice[1032..1040]);

    let mut reader = CpuRingReader::new(&data);

    let mut cursor = CpuRingCursor::default();
    reader.begin_reading(&data, &mut cursor);

    assert_eq!(true, cursor.more());

    /* 1 */
    let read = reader.read(&data, &mut cursor, &mut temp).unwrap();
    let header = Header::from_slice(read).unwrap();
    assert_eq!(1024, header.entry_type);
    assert_eq!(16, header.size);
    assert_eq!(16, read.len());
    assert_eq!(1, u64::from_ne_bytes(read[8..16].try_into().unwrap()));

    /* 2 */
    let read = reader.read(&data, &mut cursor, &mut temp).unwrap();
    let header = Header::from_slice(read).unwrap();
    assert_eq!(1024, header.entry_type);
    assert_eq!(16, header.size);
    assert_eq!(16, read.len());
    assert_eq!(2, u64::from_ne_bytes(read[8..16].try_into().unwrap()));

    /* 3 */
    let read = reader.read(&data, &mut cursor, &mut temp).unwrap();
    let header = Header::from_slice(read).unwrap();
    assert_eq!(1024, header.entry_type);
    assert_eq!(16, header.size);
    assert_eq!(16, read.len());
    assert_eq!(3, u64::from_ne_bytes(read[8..16].try_into().unwrap()));

    /* Reading after end results in 0 sized slice */
    assert_eq!(false, cursor.more());
    let read = reader.read(&data, &mut cursor, &mut temp).unwrap();
    assert_eq!(0, read.len());

    reader.end_reading(data.as_mut_slice(), &cursor);
    drop(reader);

    let slice = data.as_mut_slice();

    /* Add wrapping entry */
    entry.clear();

    /* 4 */
    Header::write(1024, 0, &4u64.to_ne_bytes(), &mut entry);

    /* Add entry to ring buffer */
    swap(&entry.as_slice()[0..8], &mut slice[8184..8192]);

    swap(&entry.as_slice()[8..16], &mut slice[4096..4104]);

    /* Head position: 8200 */
    swap(&8200u64.to_ne_bytes(), &mut slice[1024..1032]);

    /* Tail position: 8184 */
    swap(&8184u64.to_ne_bytes(), &mut slice[1032..1040]);

    let mut reader = CpuRingReader::new(&data);

    reader.begin_reading(&data, &mut cursor);

    assert_eq!(true, cursor.more());

    /* 4 */
    let read = reader.read(&data, &mut cursor, &mut temp).unwrap();
    let header = Header::from_slice(read).unwrap();
    assert_eq!(1024, header.entry_type);
    assert_eq!(16, header.size);
    assert_eq!(16, read.len());
    assert_eq!(4, u64::from_ne_bytes(read[8..16].try_into().unwrap()));

    /* Reading after end results in 0 sized slice */
    assert_eq!(false, cursor.more());
    let read = reader.read(&data, &mut cursor, &mut temp).unwrap();
    assert_eq!(0, read.len());

    reader.end_reading(data.as_mut_slice(), &cursor);

    /* Ensure update stuck */
    reader.begin_reading(&data, &mut cursor);
    assert_eq!(false, cursor.more());
    reader.end_reading(data.as_mut_slice(), &cursor);
}

#[test]
fn in_process_ring_buf_write_read() {
    let mut temp = Vec::new();

    /* Create an in-process ring buffer with 1 data page */
    let mut ring_buf = InProcessRingBuf::new(1, 4096);

    /* Get writer and reader */
    let mut writer = ring_buf.writer();
    let mut reader = ring_buf.create_reader();

    /* Write three records using abi::Header format */
    let mut record = Vec::new();
    Header::write(1024, 0, &1u64.to_ne_bytes(), &mut record);
    write_waiting(&mut writer, &mut ring_buf, &record);

    record.clear();
    Header::write(1024, 0, &2u64.to_ne_bytes(), &mut record);
    write_waiting(&mut writer, &mut ring_buf, &record);

    record.clear();
    Header::write(1024, 0, &3u64.to_ne_bytes(), &mut record);
    write_waiting(&mut writer, &mut ring_buf, &record);

    /* Read from the ring buffer */
    let mut cursor = CpuRingCursor::default();
    reader.begin_reading(ring_buf.pages(), &mut cursor);

    assert!(cursor.more());

    /* Read record 1 */
    let read = reader.read(ring_buf.pages(), &mut cursor, &mut temp).unwrap();
    let header = Header::from_slice(read).unwrap();
    assert_eq!(1024, header.entry_type);
    assert_eq!(16, header.size);
    assert_eq!(1, u64::from_ne_bytes(read[8..16].try_into().unwrap()));

    /* Read record 2 */
    let read = reader.read(ring_buf.pages(), &mut cursor, &mut temp).unwrap();
    let header = Header::from_slice(read).unwrap();
    assert_eq!(1024, header.entry_type);
    assert_eq!(16, header.size);
    assert_eq!(2, u64::from_ne_bytes(read[8..16].try_into().unwrap()));

    /* Read record 3 */
    let read = reader.read(ring_buf.pages(), &mut cursor, &mut temp).unwrap();
    let header = Header::from_slice(read).unwrap();
    assert_eq!(1024, header.entry_type);
    assert_eq!(16, header.size);
    assert_eq!(3, u64::from_ne_bytes(read[8..16].try_into().unwrap()));

    /* No more data */
    assert!(!cursor.more());

    ring_buf.end_reading(&mut reader, &cursor);
}

#[test]
fn in_process_ring_buf_write_wrap() {
    let mut temp = Vec::new();

    /* Create an in-process ring buffer with 1 data page */
    let mut ring_buf = InProcessRingBuf::new(1, 4096);
    let mut writer = ring_buf.writer();
    let mut reader = ring_buf.create_reader();

    /* Each record is 16 bytes (8-byte header + 8-byte payload).
     * Write 255 records to advance head to 4080 bytes, leaving
     * 16 bytes before the end of the 4096-byte data region. */
    let mut record = Vec::new();
    for i in 0u64..255 {
        record.clear();
        Header::write(1024, 0, &i.to_ne_bytes(), &mut record);
        write_waiting(&mut writer, &mut ring_buf, &record);
    }

    /* Read and discard those records, advancing the tail to 4080
     * so the writer sees enough free space for the next write. */
    let mut cursor = CpuRingCursor::default();
    reader.begin_reading(ring_buf.pages(), &mut cursor);
    while cursor.more() {
        let _ = reader.read(ring_buf.pages(), &mut cursor, &mut temp).unwrap();
    }
    ring_buf.end_reading(&mut reader, &cursor);

    /* Write a 24-byte record (8-byte header + 16-byte payload).
     * With head at 4080 and data_size = 4096:
     *   write_pos = 4080, write_pos + 24 = 4104 > 4096
     * so the record must wrap around the end of the buffer. */
    let payload = [0x55u8; 16];
    record.clear();
    Header::write(1024, 0, &payload, &mut record);
    assert_eq!(24, record.len());
    write_waiting(&mut writer, &mut ring_buf, &record);

    /* Read the wrapped record and verify its contents */
    reader.begin_reading(ring_buf.pages(), &mut cursor);
    assert!(cursor.more());

    let read = reader.read(ring_buf.pages(), &mut cursor, &mut temp).unwrap();
    let header = Header::from_slice(read).unwrap();
    assert_eq!(1024, header.entry_type);
    assert_eq!(24, header.size);
    assert_eq!(24, read.len());
    assert_eq!(payload, read[8..24]);

    assert!(!cursor.more());
    ring_buf.end_reading(&mut reader, &cursor);
}

#[test]
fn in_process_ring_buf_write_unaligned_record_aligns_head() {
    let mut temp = Vec::new();
    let mut ring_buf = InProcessRingBuf::new(1, 4096);
    let mut writer = ring_buf.writer();
    let mut reader = ring_buf.create_reader();
    let mut cursor = CpuRingCursor::default();

    let mut record = Vec::new();
    let payload = [0xABu8; 5];
    Header::write(1024, 0, &payload, &mut record);
    assert_eq!(16, record.len());
    write_waiting(&mut writer, &mut ring_buf, &record);

    reader.begin_reading(ring_buf.pages(), &mut cursor);
    assert_eq!(16, cursor.end());
    let read = reader.read(ring_buf.pages(), &mut cursor, &mut temp).unwrap();
    let header = Header::from_slice(read).unwrap();
    assert_eq!(16, header.size);
    assert_eq!(payload, read[8..13]);
    assert_eq!([0u8; 3], read[13..16]);
    assert!(!cursor.more());
    ring_buf.end_reading(&mut reader, &cursor);

    record.clear();
    Header::write(1024, 0, &42u64.to_ne_bytes(), &mut record);
    write_waiting(&mut writer, &mut ring_buf, &record);

    reader.begin_reading(ring_buf.pages(), &mut cursor);
    let read = reader.read(ring_buf.pages(), &mut cursor, &mut temp).unwrap();
    let header = Header::from_slice(read).unwrap();
    assert_eq!(16, header.size);
    assert_eq!(42, u64::from_ne_bytes(read[8..16].try_into().unwrap()));
    assert!(!cursor.more());
    ring_buf.end_reading(&mut reader, &cursor);
}

#[test]
fn in_process_ring_buf_lost_record_on_next_write() {
    let mut temp = Vec::new();

    /* 1 data page = 4096 bytes */
    let mut ring_buf = InProcessRingBuf::new(1, 4096);
    let mut writer = ring_buf.writer();
    let mut reader = ring_buf.create_reader();

    /* Fill the buffer completely: 256 x 16-byte records = 4096 bytes. */
    let mut record = Vec::new();
    for i in 0u64..256 {
        record.clear();
        Header::write(1024, 0, &i.to_ne_bytes(), &mut record);
        write_waiting(&mut writer, &mut ring_buf, &record);
    }

    /* Attempt a write that will fail due to no space. */
    record.clear();
    Header::write(1024, 0, &0xDEADu64.to_ne_bytes(), &mut record);
    write_waiting(&mut writer, &mut ring_buf, &record);

    /* Drain all data so the reader advances the tail, freeing space. */
    let mut cursor = CpuRingCursor::default();
    reader.begin_reading(ring_buf.pages(), &mut cursor);
    while cursor.more() {
        let _ = reader.read(ring_buf.pages(), &mut cursor, &mut temp).unwrap();
    }
    ring_buf.end_reading(&mut reader, &cursor);

    /* Next successful write should first emit a PERF_RECORD_LOST,
     * then the actual record. */
    record.clear();
    Header::write(1024, 0, &42u64.to_ne_bytes(), &mut record);
    write_waiting(&mut writer, &mut ring_buf, &record);

    reader.begin_reading(ring_buf.pages(), &mut cursor);
    assert!(cursor.more());

    /* First record should be PERF_RECORD_LOST */
    let read = reader.read(ring_buf.pages(), &mut cursor, &mut temp).unwrap();
    let header = Header::from_slice(read).unwrap();
    assert_eq!(PERF_RECORD_LOST, header.entry_type);
    assert_eq!(24, header.size);
    let lost_id = u64::from_ne_bytes(read[8..16].try_into().unwrap());
    let lost_count = u64::from_ne_bytes(read[16..24].try_into().unwrap());
    assert_eq!(0, lost_id);
    assert_eq!(1, lost_count);

    /* Second record should be the actual data */
    let read = reader.read(ring_buf.pages(), &mut cursor, &mut temp).unwrap();
    let header = Header::from_slice(read).unwrap();
    assert_eq!(1024, header.entry_type);
    assert_eq!(42, u64::from_ne_bytes(read[8..16].try_into().unwrap()));

    assert!(!cursor.more());
    ring_buf.end_reading(&mut reader, &cursor);
}

#[test]
fn in_process_ring_buf_lost_record_accumulates() {
    let mut temp = Vec::new();

    let mut ring_buf = InProcessRingBuf::new(1, 4096);
    let mut writer = ring_buf.writer();
    let mut reader = ring_buf.create_reader();

    /* Fill the buffer completely */
    let mut record = Vec::new();
    for i in 0u64..256 {
        record.clear();
        Header::write(1024, 0, &i.to_ne_bytes(), &mut record);
        write_waiting(&mut writer, &mut ring_buf, &record);
    }

    /* Attempt 3 writes that will each fail */
    for _ in 0..3 {
        record.clear();
        Header::write(1024, 0, &0u64.to_ne_bytes(), &mut record);
        write_waiting(&mut writer, &mut ring_buf, &record);
    }

    /* Drain */
    let mut cursor = CpuRingCursor::default();
    reader.begin_reading(ring_buf.pages(), &mut cursor);
    while cursor.more() {
        let _ = reader.read(ring_buf.pages(), &mut cursor, &mut temp).unwrap();
    }
    ring_buf.end_reading(&mut reader, &cursor);

    /* Next write should emit a single PERF_RECORD_LOST with count=3 */
    record.clear();
    Header::write(1024, 0, &99u64.to_ne_bytes(), &mut record);
    write_waiting(&mut writer, &mut ring_buf, &record);

    reader.begin_reading(ring_buf.pages(), &mut cursor);
    assert!(cursor.more());

    let read = reader.read(ring_buf.pages(), &mut cursor, &mut temp).unwrap();
    let header = Header::from_slice(read).unwrap();
    assert_eq!(PERF_RECORD_LOST, header.entry_type);
    let lost_count = u64::from_ne_bytes(read[16..24].try_into().unwrap());
    assert_eq!(3, lost_count);

    /* Followed by the actual data record */
    let read = reader.read(ring_buf.pages(), &mut cursor, &mut temp).unwrap();
    let header = Header::from_slice(read).unwrap();
    assert_eq!(1024, header.entry_type);
    assert_eq!(99, u64::from_ne_bytes(read[8..16].try_into().unwrap()));

    assert!(!cursor.more());
    ring_buf.end_reading(&mut reader, &cursor);
}

#[test]
fn in_process_ring_buf_flush_writes_lost_record() {
    let mut temp = Vec::new();

    let mut ring_buf = InProcessRingBuf::new(1, 4096);
    let mut writer = ring_buf.writer();
    let mut reader = ring_buf.create_reader();

    /* Fill the buffer */
    let mut record = Vec::new();
    for i in 0u64..256 {
        record.clear();
        Header::write(1024, 0, &i.to_ne_bytes(), &mut record);
        write_waiting(&mut writer, &mut ring_buf, &record);
    }

    /* Fail 2 writes */
    for _ in 0..2 {
        record.clear();
        Header::write(1024, 0, &0u64.to_ne_bytes(), &mut record);
        write_waiting(&mut writer, &mut ring_buf, &record);
    }

    /* Drain */
    let mut cursor = CpuRingCursor::default();
    reader.begin_reading(ring_buf.pages(), &mut cursor);
    while cursor.more() {
        let _ = reader.read(ring_buf.pages(), &mut cursor, &mut temp).unwrap();
    }
    ring_buf.end_reading(&mut reader, &cursor);

    /* flush() at end of session should emit the lost record */
    writer.flush(&mut ring_buf);

    reader.begin_reading(ring_buf.pages(), &mut cursor);
    assert!(cursor.more());

    let read = reader.read(ring_buf.pages(), &mut cursor, &mut temp).unwrap();
    let header = Header::from_slice(read).unwrap();
    assert_eq!(PERF_RECORD_LOST, header.entry_type);
    assert_eq!(24, header.size);
    let lost_count = u64::from_ne_bytes(read[16..24].try_into().unwrap());
    assert_eq!(2, lost_count);

    assert!(!cursor.more());
    ring_buf.end_reading(&mut reader, &cursor);
}

#[test]
fn in_process_ring_buf_no_lost_record_when_zero() {
    let mut temp = Vec::new();

    let mut ring_buf = InProcessRingBuf::new(1, 4096);
    let mut writer = ring_buf.writer();
    let mut reader = ring_buf.create_reader();

    /* Write a normal record */
    let mut record = Vec::new();
    Header::write(1024, 0, &1u64.to_ne_bytes(), &mut record);
    write_waiting(&mut writer, &mut ring_buf, &record);

    /* flush() with no lost records should be a no-op */
    writer.flush(&mut ring_buf);

    let mut cursor = CpuRingCursor::default();
    reader.begin_reading(ring_buf.pages(), &mut cursor);
    assert!(cursor.more());

    /* Only the normal record, no lost record */
    let read = reader.read(ring_buf.pages(), &mut cursor, &mut temp).unwrap();
    let header = Header::from_slice(read).unwrap();
    assert_eq!(1024, header.entry_type);
    assert_eq!(1, u64::from_ne_bytes(read[8..16].try_into().unwrap()));

    assert!(!cursor.more());
    ring_buf.end_reading(&mut reader, &cursor);
}

#[test]
fn in_process_ring_buf_layout() {
    let ring_buf = InProcessRingBuf::new(3, 4096);
    let pages = ring_buf.pages();
    assert_eq!(4096 + 4 * 4096, pages.len());
    assert_eq!(4096, u64::from_le_bytes(pages[1040..1048].try_into().unwrap()));
    assert_eq!(4 * 4096, u64::from_le_bytes(pages[1048..1056].try_into().unwrap()));
    let reader = CpuRingReader::new(pages);
    assert!(reader.is_owned());
    let reader = ring_buf.create_reader();
    assert!(!reader.is_owned());
    assert_eq!(4 * 4096, reader.data_slice(pages).len());
}

#[test]
fn oversized_record_is_lost() {
    let mut ring_buf = InProcessRingBuf::new(1, 4096);
    let mut writer = ring_buf.writer();
    let reader = ring_buf.create_reader();
    let record = vec![0u8; 4097];
    write_waiting(&mut writer, &mut ring_buf, &record);
    let mut cursor = CpuRingCursor::default();
    reader.begin_reading(ring_buf.pages(), &mut cursor);
    assert!(!cursor.more());
    writer.flush(&mut ring_buf);
    reader.begin_reading(ring_buf.pages(), &mut cursor);
    assert_eq!(24, cursor.end());
}

#[test]
fn cursor_moves() {
    let mut cursor = CpuRingCursor::default();
    assert_eq!(0, cursor.start());
    assert!(!cursor.more());
    cursor.set(8, 40);
    assert!(cursor.more());
    cursor.advance(32);
    assert_eq!(40, cursor.start());
    assert!(!cursor.more());
}

fn ring_with(data_size: u64, head: u64, tail: u64) -> Vec<u8> {
    let mut data = vec![0u8; 4096 + data_size as usize];
    data[1040..1048].copy_from_slice(&4096u64.to_le_bytes());
    data[1048..1056].copy_from_slice(&data_size.to_le_bytes());
    data[1024..1032].copy_from_slice(&head.to_le_bytes());
    data[1032..1040].copy_from_slice(&tail.to_le_bytes());
    data
}

#[test]
fn peek_header_and_u64() {
    let mut data = ring_with(64, 32, 16);
    let mut entry = Vec::new();
    Header::write(7, 3, &0x1122334455667788u64.to_le_bytes(), &mut entry);
    data[4096 + 16..4096 + 32].copy_from_slice(&entry);
    let reader = CpuRingReader::new(&data);
    let mut cursor = CpuRingCursor::default();
    reader.begin_reading(&data, &mut cursor);
    let mut start = 0;
    let header = reader.peek_header(&cursor, reader.data_slice(&data), &mut start).unwrap();
    assert_eq!(16, start);
    assert_eq!(7, header.entry_type);
    assert_eq!(3, header.misc);
    assert_eq!(16, header.size);
    assert_eq!(0x1122334455667788, reader.peek_u64(&data, &cursor, 8));
}

#[test]
fn read_errors() {
    /* A header that straddles the end of the data area. */
    let data = ring_with(64, 80, 60);
    let reader = CpuRingReader::new(&data);
    let mut cursor = CpuRingCursor::default();
    let mut temp = Vec::new();
    reader.begin_reading(&data, &mut cursor);
    assert_eq!(Err(RingBufError::HeaderTruncated), reader.read(&data, &mut cursor, &mut temp).map(|s| s.len()));
    assert_eq!(60, cursor.start());

    /* A size that reaches beyond one wrap. */
    let mut data = ring_with(64, 200, 8);
    let mut entry = Vec::new();
    Header::write(1, 0, &[0u8; 8], &mut entry);
    entry[6..8].copy_from_slice(&200u16.to_le_bytes());
    data[4096 + 8..4096 + 24].copy_from_slice(&entry);
    let reader = CpuRingReader::new(&data);
    reader.begin_reading(&data, &mut cursor);
    assert_eq!(Err(RingBufError::RecordOverrun), reader.read(&data, &mut cursor, &mut temp).map(|s| s.len()));
    assert_eq!(8, cursor.start());
}

#[test]
fn in_process_write_waits_before_dropping() {
    let mut ring_buf = InProcessRingBuf::new(1, 4096);
    let mut writer = ring_buf.writer();
    let record = vec![0u8; 2048];
    assert_eq!(WriteStep::Written, writer.write(&mut ring_buf, &record, 0));
    assert_eq!(WriteStep::Written, writer.write(&mut ring_buf, &record, 0));
    /* Full: the writer waits until the time is up, then drops. */
    assert_eq!(WriteStep::Wait, writer.write(&mut ring_buf, &record, 0));
    assert_eq!(WriteStep::Wait, writer.write(&mut ring_buf, &record, WAIT_TIMEOUT_MS - 1));
    assert_eq!(WriteStep::Dropped, writer.write(&mut ring_buf, &record, WAIT_TIMEOUT_MS));
    /* A record that can never fit is dropped at once. */
    let huge = vec![0u8; 8192];
    assert_eq!(WriteStep::Dropped, writer.write(&mut ring_buf, &huge, 0));
}
