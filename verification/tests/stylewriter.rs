use tailtalk::stylewriter::{
    abort, answers_cs_queries, build_print_request, check_paper, chunky_to_mono_plane, chunky_to_planes,
    encode_page_batches, encode_row, finish, identity_text, poll_status, print_request_answer, query_info, setup,
    status_query, write_batch, BufferQueries, BufferStep, IdentityReader, IdentityStep, NoCartridgeReply, PageStart, PageStep, PollStep, PrintQuality,
    PrintRequestAnswer, PrinterBusy, Reply, SessionAction, SetupError, StyleWriterEncoder, StyleWriterInfo, WaitReady,
    WaitStep, DATA_BLACK, DATA_WHITE, MASK_RUNBLK, MASK_RUNWHT, MAX_BAND_ROWS, MAX_BATCH_BYTES, MECHANISM_SETTLE_MILLIS,
    SW2200_PRINT_ROWBYTES,
};

#[test]
fn test_encode_rect() {
    // R (0x52) or c (0x63), then little-endian left, top, right, bottom.
    let bw = StyleWriterEncoder::encode_rect(10, 20, 30, 40, false);
    assert_eq!(bw, vec![b'R', 20, 0, 10, 0, 40, 0, 30, 0]);

    let color = StyleWriterEncoder::encode_rect(10, 20, 30, 40, true);
    assert_eq!(color, vec![b'c', 20, 0, 10, 0, 40, 0, 30, 0]);
}

#[test]
fn test_wrap_raster_chunk() {
    let chunk = vec![0xAB, 0xCD, 0xEF];
    let wrapped = StyleWriterEncoder::wrap_raster_chunk(&chunk);

    assert_eq!(wrapped.len(), 7);
    assert_eq!(wrapped[0], b'G');
    assert_eq!(wrapped[1], 0x03); // Length LSB (3 bytes)
    assert_eq!(wrapped[2], 0x00); // Length MSB
    assert_eq!(&wrapped[3..6], &[0xAB, 0xCD, 0xEF]);
    assert_eq!(wrapped.last(), Some(&0x00)); // Null terminator
}

#[test]
fn test_encode_scanline() {
    // Test a pure white line (all 0s)
    let white_line = vec![DATA_WHITE; 100];
    let encoded = StyleWriterEncoder::encode_scanline(&white_line, 100, true);
    assert_eq!(encoded, vec![MASK_RUNWHT]);

    // Test a line padded with white at the end
    let src = vec![DATA_BLACK, DATA_BLACK, DATA_BLACK]; // 3 black pixels
    let encoded = StyleWriterEncoder::encode_scanline(&src, 10, true);
    // Expect: MASK_RUNBLK + 3, MASK_RUNWHT + 7
    assert_eq!(encoded, vec![MASK_RUNBLK + 3, MASK_RUNWHT + 7]);

    // Test random data
    let src = vec![0x11, 0x22, 0x33, DATA_WHITE, DATA_WHITE];
    let encoded = StyleWriterEncoder::encode_scanline(&src, 5, true);
    // Expect: random length 3 | 0x11 | 0x22 | 0x33 | then white pad/run
    assert_eq!(encoded[0], 3); // 3 bytes of raw data
    assert_eq!(&encoded[1..4], &[0x11, 0x22, 0x33]);
    assert_eq!(encoded[4], MASK_RUNWHT + 2); // 2 bytes of white
}

#[test]
fn test_encode_page_batches_bands() {
    // Rows of incompressible data force multiple bands; every band must
    // stay strictly below MAX_BATCH_BYTES and the bands must tile the
    // page contiguously.
    let plane_len = SW2200_PRINT_ROWBYTES;
    let rows: Vec<Vec<Vec<u8>>> = (0..400)
        .map(|r| {
            (0..4)
                .map(|p| (0..plane_len).map(|i| ((r * 31 + p * 7 + i * 13) % 251) as u8 + 1).collect())
                .collect()
        })
        .collect();
    let batches = encode_page_batches(&rows, false);
    assert!(batches.len() > 1, "expected multiple bands, got {}", batches.len());
    assert_eq!(batches[0].top, 0);
    assert_eq!(batches.last().unwrap().bottom as usize, rows.len() - 1);
    for pair in batches.windows(2) {
        assert_eq!(pair[1].top, pair[0].bottom + 1, "bands must be contiguous");
    }
    for b in &batches {
        assert!(b.data.len() < MAX_BATCH_BYTES);
        assert!(b.top <= b.bottom);
    }
}

#[test]
fn test_encode_page_batches_row_cap() {
    // A tall, highly-compressible mono page (all white) compresses to a
    // few bytes per row, so the compressed cap alone would let one band span
    // hundreds of rows. Every band must stay within MAX_BAND_ROWS scanlines.
    let rows: Vec<Vec<Vec<u8>>> =
        (0..MAX_BAND_ROWS * 3 + 17).map(|_| vec![vec![0u8; SW2200_PRINT_ROWBYTES]]).collect();
    let batches = encode_page_batches(&rows, true);
    assert!(batches.len() >= 4, "row cap must split the page into several bands");
    for b in &batches {
        let band_rows = (b.bottom - b.top + 1) as usize;
        assert!(band_rows <= MAX_BAND_ROWS, "band of {band_rows} rows exceeds MAX_BAND_ROWS");
    }
    // Bands must still tile the page contiguously with no gaps.
    assert_eq!(batches[0].top, 0);
    assert_eq!(batches.last().unwrap().bottom as usize, rows.len() - 1);
    for pair in batches.windows(2) {
        assert_eq!(pair[1].top, pair[0].bottom + 1, "bands must be contiguous");
    }
}

#[test]
fn test_encode_page_batches_mono_single_band() {
    // A small all-white mono page fits in a single band.
    let rows: Vec<Vec<Vec<u8>>> = (0..10).map(|_| vec![vec![0u8; 100]]).collect();
    let batches = encode_page_batches(&rows, true);
    assert_eq!(batches.len(), 1);
    assert_eq!((batches[0].top, batches[0].bottom), (0, 9));
}

#[test]
fn test_encode_scanline_blank_shortcut_disabled() {
    // With the shortcut disabled, an all-white line must be encoded as
    // explicit white runs, not the single MASK_RUNWHT byte.
    let white_line = vec![DATA_WHITE; 100];
    let encoded = StyleWriterEncoder::encode_scanline(&white_line, 100, false);
    assert_ne!(encoded, vec![MASK_RUNWHT]);
    assert_eq!(encoded, vec![MASK_RUNWHT + 62, MASK_RUNWHT + 38]);
}

#[test]
fn rows_are_encoded_plane_by_plane() {
    let row = vec![vec![DATA_BLACK; 4]];
    let blank = vec![vec![DATA_WHITE; 4]];
    let first = encode_row(&row, &blank, false, true);
    let mut expected = vec![MASK_RUNBLK + 4];
    expected.extend([MASK_RUNWHT + 62; 5]);
    expected.push(MASK_RUNWHT + (SW2200_PRINT_ROWBYTES - 4 - 310) as u8);
    assert_eq!(first, expected);
}

#[test]
fn nibbles_are_split_into_planes() {
    // Eight pixels: all four colours, none, and each by itself.
    let chunky = [0xF0, 0x84, 0x21, 0x11, 0x80];
    let planes = chunky_to_planes(&chunky, 2);
    assert_eq!(planes[0], vec![0b1010_0000, 0b1000_0000]);
    assert_eq!(planes[1], vec![0b1001_0000, 0]);
    assert_eq!(planes[2], vec![0b1000_1000, 0]);
    assert_eq!(planes[3], vec![0b1000_0111, 0]);
    assert_eq!(chunky_to_mono_plane(&chunky, 2), planes[3]);
}

#[test]
fn later_rows_of_a_band_are_differences() {
    let row = vec![vec![0x55; 10]];
    let rows = vec![row.clone(), row.clone()];
    let batches = encode_page_batches(&rows, true);
    assert_eq!(batches.len(), 1);
    let first = encode_row(&row, &row, false, true);
    assert_eq!(&batches[0].data[..first.len()], &first[..]);
    // The second row differs in nothing: all white.
    assert_eq!(&batches[0].data[first.len()..], &[MASK_RUNWHT]);
    assert!(encode_page_batches(&[], true).is_empty());
}

#[test]
fn print_request_carries_socket_and_name() {
    let payload = build_print_request(129, "mac");
    assert_eq!(payload.len(), 70);
    assert_eq!(&payload[0..8], &[0, 0, 0, 129, 3, b'm', b'a', b'c']);
    assert!(payload[8..].iter().all(|b| *b == 0));

    let long = build_print_request(1, &"x".repeat(100));
    assert_eq!(long.len(), 70);
    assert_eq!(long[4], 64);
    assert_eq!(long[69], 0);
}

#[test]
fn print_request_answers() {
    assert_eq!(print_request_answer(0), PrintRequestAnswer::Accepted);
    assert_eq!(print_request_answer(0xFFFF), PrintRequestAnswer::Rejected);
    assert_eq!(print_request_answer(7), PrintRequestAnswer::Busy(PrinterBusy(7)));
}

#[test]
fn identities_are_trimmed_and_named() {
    assert_eq!(identity_text(b"  CS\r"), "CS");
    assert_eq!(identity_text(&[b'S', 0xFF, b'W']), "S\u{FFFD}W");
    assert!(answers_cs_queries("CS"));
    assert!(!answers_cs_queries("SW"));

    let info = StyleWriterInfo { identity: "CS".to_string(), submodel: Some(2), color_cartridge: true };
    assert_eq!(info.model_name(), "Apple Color StyleWriter 2200");
    assert!(info.color_capable());
    let info = StyleWriterInfo { identity: "SW3".to_string(), submodel: None, color_cartridge: true };
    assert_eq!(info.model_name(), "Apple StyleWriter 1200");
    assert!(!info.color_capable());
    assert!(query_info(identity_text(b"CS"), Some(2), Some(0)).is_ok());
}

#[test]
fn statuses_are_polled_until_the_deadline() {
    assert_eq!(poll_status(Reply::Silent, false), PollStep::Ask);
    assert_eq!(poll_status(Reply::Silent, true), PollStep::Done(None));
    assert_eq!(poll_status(Reply::Byte(7), true), PollStep::Done(Some(7)));
    assert_eq!(poll_status(Reply::Failed, false), PollStep::Done(None));
    assert_eq!(status_query(b'B'), vec![0xFF, 0xFF, 0xFF, b'B']);
}

#[test]
fn waits_end_when_the_printer_is_idle() {
    let mut wait = WaitReady::new();
    assert_eq!(wait.wait_ready(None, Some(0), Some(0)), WaitStep::NoReply);
    assert_eq!(wait.wait_ready(Some(0), Some(0), Some(0x23)), WaitStep::Busy);
    assert_eq!(wait.wait_ready(Some(0), Some(4), Some(0xA3)), WaitStep::RetryPaper);
    assert_eq!(wait.wait_ready(Some(1), Some(0), Some(0xA2)), WaitStep::Ready);
    assert_eq!(wait.wait_ready(None, None, None), WaitStep::NotReady(1, 0, 0xA2));
    assert!(check_paper(Some(4)));
    assert!(!check_paper(Some(0x80)) && !check_paper(None));
}

#[test]
fn identities_end_at_a_carriage_return() {
    let mut reader = IdentityReader::new();
    assert_eq!(reader.take(Reply::Silent), IdentityStep::NoReply);
    assert_eq!(reader.take(Reply::Byte(b'C')), IdentityStep::More);
    assert_eq!(reader.take(Reply::Failed), IdentityStep::Failed);
    assert_eq!(reader.take(Reply::Silent), IdentityStep::Complete);
    assert_eq!(reader.take(Reply::Byte(b'S')), IdentityStep::More);
    assert_eq!(reader.take(Reply::Byte(0x0D)), IdentityStep::Complete);
    assert_eq!(reader.bytes, b"CS");
    for _ in 0..30 {
        assert_eq!(reader.take(Reply::Byte(b'x')), IdentityStep::More);
    }
    assert_eq!(reader.take(Reply::Byte(b'x')), IdentityStep::Complete);
    assert_eq!(reader.bytes.len(), 32);
}

#[test]
fn pages_start_with_the_right_mode() {
    assert_eq!(setup(false, PrintQuality::Normal, None).unwrap(), b"m2nZAH");
    assert_eq!(setup(false, PrintQuality::Best, None).unwrap(), b"m2sZAH");
    assert_eq!(setup(true, PrintQuality::Normal, Some(0x80)).unwrap(), b"m2sAH");
    assert_eq!(setup(true, PrintQuality::Best, None), Err(SetupError::NoCartridgeReply));
    assert_eq!(setup(true, PrintQuality::Best, Some(0x01)), Err(SetupError::BlackCartridge(0x01)));
    assert!(matches!(query_info("CS".to_string(), None, None), Err(NoCartridgeReply)));
    assert!(!query_info("SW".to_string(), Some(1), None).unwrap().color_cartridge);
}

#[test]
fn the_buffer_is_asked_for_twice() {
    let mut queries = BufferQueries::new();
    assert!(matches!(
        queries.next(false),
        BufferStep::Ask { code: 0x0006, data, bytes: 2, millis: 3000 } if data == [0]
    ));
    assert!(matches!(queries.next(false), BufferStep::Ask { .. }));
    assert!(matches!(queries.next(false), BufferStep::Done));
    // A first query that goes unanswered is the last.
    let mut queries = BufferQueries::new();
    assert!(matches!(queries.next(false), BufferStep::Ask { .. }));
    assert!(matches!(queries.next(true), BufferStep::Done));
}

#[test]
fn pages_start_step_by_step() {
    let mut page = PageStart::new(true, PrintQuality::Normal);
    assert!(matches!(page.next(None), Ok(PageStep::Send(b)) if b == b"D"));
    assert!(matches!(page.next(None), Ok(PageStep::Ask(b'B'))));
    assert!(matches!(page.next(None), Ok(PageStep::Ask(b'H'))));
    assert!(matches!(page.next(None), Err(SetupError::NoCartridgeReply)));
    assert!(matches!(page.next(Some(1)), Err(SetupError::BlackCartridge(1))));
    assert!(matches!(page.next(Some(0x80)), Ok(PageStep::Send(b)) if b == b"m2sAH"));
    assert!(matches!(page.next(None), Ok(PageStep::Send(b)) if b == b"L"));
    assert!(matches!(page.next(None), Ok(PageStep::Settle(MECHANISM_SETTLE_MILLIS))));
    assert!(matches!(page.next(None), Ok(PageStep::WaitReady)));
    assert!(matches!(page.next(None), Ok(PageStep::Done)));
}

#[test]
fn sessions_end_with_the_teardown() {
    let abort = abort();
    assert_eq!(abort.len(), 5);
    assert!(matches!(&abort[1], SessionAction::Send(bytes) if bytes == b"\xFF\xFF\xFFI"));
    assert!(matches!(abort[4], SessionAction::Close));
    let finish = finish();
    assert_eq!(finish.len(), 10);
    assert!(matches!(finish[0], SessionAction::WaitIdle { required: true }));
    assert!(matches!(&finish[1], SessionAction::SendMessage(bytes) if bytes == b"\x0C"));
    assert!(matches!(&finish[4], SessionAction::Send(bytes) if bytes == b"El"));
}

#[test]
fn batches_too_large_for_a_block_are_refused() {
    assert!(write_batch(0, 9, &vec![0u8; 70_000], false).is_none());
    let bytes = write_batch(0, 9, &[1, 2, 3], false).unwrap();
    assert_eq!(bytes[0], b'R');
}
