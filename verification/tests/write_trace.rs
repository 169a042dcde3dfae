use glidefs::write_trace::{iter_entries, read_header, TraceEntry, TraceOp, WriteTracer};

#[test]
fn test_trace_roundtrip() {
    let (tracer, mut data) = WriteTracer::new(131072, 1024, "test-export", 1_700_000_000_000_000);

    // Record some writes
    data.extend(tracer.record(0, 131072, TraceOp::Write, 10)); // block 0, 1 block
    data.extend(tracer.record(131072 * 5, 131072 * 3, TraceOp::Write, 20)); // blocks 5-7, 3 blocks
    data.extend(tracer.record(131072 * 2, 131072, TraceOp::Trim, 30)); // block 2, trim

    // Read back
    assert_eq!(data.len(), 64 + 3 * 16); // header + 3 entries

    let header = read_header(&data).unwrap();
    assert_eq!(header.version, 1);
    assert_eq!(header.block_size, 131072);
    assert_eq!(header.device_blocks, 1024);
    assert_eq!(header.start_time_us, 1_700_000_000_000_000);
    assert_eq!(header.export_name, "test-export");

    let entries = iter_entries(&data);
    assert_eq!(entries.len(), 3);

    assert_eq!(entries[0].block_index, 0);
    assert_eq!(entries[0].op, 0); // Write
    assert_eq!(entries[0].span, 1);

    assert_eq!(entries[1].block_index, 5);
    assert_eq!(entries[1].op, 0); // Write
    assert_eq!(entries[1].span, 3);

    assert_eq!(entries[2].block_index, 2);
    assert_eq!(entries[2].op, 1); // Trim
    assert_eq!(entries[2].span, 1);

    // Timestamps should be monotonically increasing
    assert!(entries[1].elapsed_us >= entries[0].elapsed_us);
    assert!(entries[2].elapsed_us >= entries[1].elapsed_us);
}

#[test]
fn test_empty_trace() {
    let (_tracer, data) = WriteTracer::new(131072, 512, "empty", 1);
    assert_eq!(data.len(), 64); // header only

    let header = read_header(&data).unwrap();
    assert_eq!(header.export_name, "empty");
    assert_eq!(header.device_blocks, 512);

    assert!(iter_entries(&data).is_empty());
}

#[test]
fn test_long_export_name_truncated() {
    let long_name = "a".repeat(64);
    let (_tracer, data) = WriteTracer::new(131072, 100, &long_name, 1);
    let header = read_header(&data).unwrap();
    assert_eq!(header.export_name.len(), 32);
}

#[test]
fn entry_bytes_are_little_endian() {
    let (tracer, _) = WriteTracer::new(4096, 100, "x", 0);
    let entry = tracer.record(4096 * 0x0102, 1, TraceOp::WriteZeroes, 0x0304);
    assert_eq!(entry, [0x02, 0x01, 0, 0, 2, 0, 1, 0, 0x04, 0x03, 0, 0, 0, 0, 0, 0]);
}

#[test]
fn unaligned_operation_spans_every_block_it_touches() {
    let (tracer, mut data) = WriteTracer::new(4096, 100, "x", 0);
    data.extend(tracer.record(4095, 2, TraceOp::Write, 7));
    assert_eq!(iter_entries(&data), [TraceEntry { block_index: 0, op: 0, span: 2, elapsed_us: 7 }]);
}

#[test]
fn headers_that_cannot_be_read() {
    let (_tracer, data) = WriteTracer::new(4096, 100, "x", 0);
    assert!(read_header(&data[..63]).is_none());
    let mut wrong_magic = data.clone();
    wrong_magic[7] = b'X';
    assert!(read_header(&wrong_magic).is_none());
    let mut wrong_version = data.clone();
    wrong_version[8] = 2;
    assert!(read_header(&wrong_version).is_none());
}

#[test]
fn entry_that_was_cut_short_is_ignored() {
    let (tracer, mut data) = WriteTracer::new(4096, 100, "x", 0);
    data.extend(tracer.record(0, 4096, TraceOp::Write, 1));
    data.extend(&tracer.record(4096, 4096, TraceOp::Write, 2)[..15]);
    assert_eq!(iter_entries(&data).len(), 1);
}

#[test]
fn names_are_text() {
    let (_tracer, data) = WriteTracer::new(4096, 1, "übung", 0);
    assert_eq!(read_header(&data).unwrap().export_name, "übung");
    // Cut in the middle of a character.
    let (_tracer, data) = WriteTracer::new(4096, 1, &format!("{}é", "a".repeat(31)), 0);
    assert_eq!(read_header(&data).unwrap().export_name, format!("{}\u{FFFD}", "a".repeat(31)));
}
