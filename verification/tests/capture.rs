use vfs495::capture::{
    absorb_reply, decode_sequence, device_gone, ep2_stream_finished, parse_reply, poll_payload_changed, poll_plan,
    status_is_ok, CaptureLog, Exchange, ExchangeStep, PollError, QuietCounter, Reject,
};
use vfs495::usb::{complete_record, record_bytes_needed};
use vfs495::virtimage::{image_message, SizeMismatch};

#[test]
fn reply_status_words() {
    assert_eq!(parse_reply(&[0x00, 0x00]), (0x0000, 0));
    assert_eq!(parse_reply(&[0x12, 0x04, 1, 2, 3]), (0x0412, 3));
    assert_eq!(parse_reply(&[0x01]), (0xffff, 0));
    assert_eq!(parse_reply(&[]), (0xffff, 0));
}

#[test]
fn status_classification() {
    assert!(status_is_ok(0x0000));
    assert!(status_is_ok(0x0412));
    assert!(status_is_ok(0x0012));
    assert!(!status_is_ok(0x0400));
    assert!(!status_is_ok(0x0401));
    assert!(!status_is_ok(0xffff));
}

#[test]
fn replies_join_payloads() {
    let mut payload = Vec::new();
    assert_eq!(absorb_reply(&mut payload, &[0, 0]), 0);
    assert_eq!(absorb_reply(&mut payload, &[0x12, 0x04, 7, 8]), 0x0412);
    assert_eq!(absorb_reply(&mut payload, &[9]), 0xffff);
    assert_eq!(payload, vec![7, 8]);
}

#[test]
fn capture_log_keeps_first_reject() {
    let mut log = CaptureLog::new();
    assert!(log.note_reply(0, 0x01, &[0, 0]));
    assert!(!log.should_stop());
    assert!(!log.note_reply(1, 0x02, &[0x01, 0x04]));
    assert!(!log.note_reply(2, 0x03, &[0x02, 0x04]));
    assert!(log.should_stop());
    assert_eq!(log.first_reject, Some(Reject { index: 1, op: 0x02, status: 0x0401 }));
}

#[test]
fn quiet_counter_stops_after_quiet_reads() {
    let mut q = QuietCounter::new();
    assert!(q.note_chunk(0, 2));
    assert!(q.note_chunk(10, 2));
    assert_eq!(q.empties, 0);
    assert!(q.note_chunk(0, 2));
    assert!(!q.note_chunk(0, 2));
}

#[test]
fn sequence_decoding() {
    let ok = decode_sequence(&vec![" 0102 ".to_string(), "ff".to_string()]).ok().unwrap();
    assert_eq!(ok, vec![vec![1, 2], vec![0xff]]);
    assert!(decode_sequence(&vec!["01".to_string(), "xyz".to_string()]).is_err());
}

#[test]
fn record_framing() {
    assert_eq!(record_bytes_needed(&[0x17, 3]), 5);
    assert_eq!(record_bytes_needed(&[0x17, 3, 0, 0, 16]), 21);
    assert_eq!(complete_record(&[0x17, 3, 0]), None);
    assert_eq!(complete_record(&[0x17, 3, 0, 0, 2, 9]), None);
    assert_eq!(complete_record(&[0x17, 3, 0, 0, 2, 9, 8, 7]), Some(vec![0x17, 3, 0, 0, 2, 9, 8]));
    assert_eq!(complete_record(&[0x15, 3, 0, 0, 0]), Some(vec![0x15, 3, 0, 0, 0]));
}

#[test]
fn virtual_image_message() {
    let msg = image_message(&[1, 2, 3, 4, 5, 6], 3, 2).ok().unwrap();
    assert_eq!(msg, vec![3, 0, 0, 0, 2, 0, 0, 0, 1, 2, 3, 4, 5, 6]);
    assert_eq!(
        image_message(&[1, 2, 3], 2, 2).err(),
        Some(SizeMismatch { pixels: 3, width: 2, height: 2 })
    );
    assert_eq!(image_message(&[], 0, 7).ok().unwrap(), vec![0, 0, 0, 0, 7, 0, 0, 0]);
}

#[test]
fn exchange_gives_up_after_six_writes() {
    let mut ex = Exchange::new();
    let mut steps = Vec::new();
    loop {
        let step = ex.step();
        steps.push(step);
        match step {
            ExchangeStep::Write => ex.write_failed(steps.len() % 4 == 1),
            ExchangeStep::Reopen | ExchangeStep::Pause(_) => ex.resumed(),
            ExchangeStep::Read(_) => unreachable!(),
            ExchangeStep::Done => break,
        }
    }
    assert!(!ex.wrote());
    let writes = steps.iter().filter(|s| **s == ExchangeStep::Write).count();
    assert_eq!(writes, 6);
    assert_eq!(steps[1], ExchangeStep::Reopen);
    assert_eq!(steps[3], ExchangeStep::Pause(50));
}

#[test]
fn exchange_reads_at_most_four_replies() {
    let mut ex = Exchange::new();
    ex.write_done();
    assert!(ex.wrote());
    assert_eq!(ex.step(), ExchangeStep::Read(3000));
    ex.record_read();
    assert_eq!(ex.step(), ExchangeStep::Read(200));
    ex.record_read();
    ex.record_read();
    assert_eq!(ex.step(), ExchangeStep::Read(200));
    ex.record_read();
    assert_eq!(ex.step(), ExchangeStep::Done);

    let mut ex = Exchange::new();
    ex.write_failed(false);
    ex.resumed();
    ex.write_done();
    ex.read_failed();
    assert_eq!(ex.step(), ExchangeStep::Done);
    assert!(ex.wrote());
}

#[test]
fn device_gone_messages() {
    assert!(device_gone("EP_OUT write failed: No such device (it may have been disconnected)"));
    assert!(device_gone("EP_OUT write failed: NoDevice"));
    assert!(!device_gone("EP_OUT write failed: Operation timed out"));
    assert!(!device_gone(""));
    assert!(!device_gone("No such devic"));
}

#[test]
fn ep2_stream_stop_rules() {
    // quiet for 1.3 s after data: stop
    assert!(ep2_stream_finished(false, 10, 1_300_000_000, 2_000_000_000, 1200, 15000));
    // quiet but nothing collected yet: keep waiting
    assert!(!ep2_stream_finished(false, 0, 1_300_000_000, 2_000_000_000, 1200, 15000));
    // data just arrived
    assert!(!ep2_stream_finished(true, 10, 0, 2_000_000_000, 1200, 15000));
    // exactly at the quiet limit is not past it
    assert!(!ep2_stream_finished(false, 10, 1_200_000_000, 2_000_000_000, 1200, 15000));
    // overall limit
    assert!(ep2_stream_finished(true, 10, 0, 15_000_000_001, 1200, 15000));
}


#[test]
fn poll_plan_checks_index_and_caps_prefix() {
    assert_eq!(poll_plan(10, 4, 9), Ok((4, 9)));
    assert_eq!(poll_plan(10, 25, 0), Ok((10, 0)));
    assert_eq!(poll_plan(10, 4, 10), Err(PollError::IndexOutOfRange));
    assert_eq!(poll_plan(0, 0, 0), Err(PollError::IndexOutOfRange));
}

#[test]
fn poll_payload_change_flag() {
    assert!(!poll_payload_changed(None, &[1, 2]));
    assert!(!poll_payload_changed(Some(&[1, 2]), &[1, 2]));
    assert!(poll_payload_changed(Some(&[1, 2]), &[1, 3]));
    assert!(poll_payload_changed(Some(&[1, 2]), &[1, 2, 0]));
    assert!(poll_payload_changed(Some(&[]), &[0]));
}
