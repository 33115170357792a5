//! NDJSON framing: boundaries, records, issues, and output policy.

use jqf_codec_json::encode::{FactPreservation, JsonEncoder};
use jqf_codec_json::error::CodecFailureKind;
use jqf_codec_json::factory::RequestOptions;
use jqf_codec_json::ndjson::boundary::{frame_at, Frame};
use jqf_codec_json::ndjson::error::{framing_span, framing_text, RecordIssueCode};
use jqf_codec_json::ndjson::provider::{
    create_registered_provider, physical_route, profile_matches_request, RecordProviderOpen,
};
use jqf_codec_json::ndjson::render::create_registered_factory;
use jqf_codec_json::ndjson::stream::{
    payload_is_blank, NdjsonRecordSession, RecordBatchLimit, RecordEntry, RecordFailure, RecordIssueSeverity, RecordPoll,
};
use jqf_codec_json::ndjson::{
    NdjsonDecodeOptions, NdjsonEncodeOptions, NdjsonProfile, NdjsonTerminator, FORMAT_ID, RECOVERING_DIALECT_ID,
    STRICT_DIALECT_ID,
};
use jqf_codec_json::options::{JsonEncodeOptions, ValidationMode};
use jqf_codec_json::value::{Item, NumberText, Value};

#[test]
fn a_line_feed_terminates_a_record() {
    assert_eq!(frame_at(b"{\"a\":1}\n{}", 0), Frame::Lf { lf: 7 });
}

#[test]
fn a_carriage_return_before_the_line_feed_is_part_of_the_terminator() {
    assert_eq!(frame_at(b"{\"a\":1}\r\n", 0), Frame::CrLf { cr: 7 });
}

#[test]
fn any_other_carriage_return_is_a_framing_fault_at_its_own_offset() {
    assert_eq!(frame_at(b"{\"a\":1}\r{}\n", 0), Frame::BareCr { cr: 7 });
    assert_eq!(frame_at(b"\r", 0), Frame::BareCr { cr: 0 });
}

#[test]
fn no_framing_byte_leaves_the_record_unterminated() {
    assert_eq!(frame_at(b"{\"a\":1}", 0), Frame::Unterminated);
    assert_eq!(frame_at(b"", 0), Frame::Unterminated);
}

#[test]
fn the_word_scan_agrees_with_a_byte_scan_across_every_alignment() {
    let len = 64;
    for position in 0..len {
        let mut input = [b'x'; 64];
        input[position] = b'\n';
        assert_eq!(frame_at(&input, 0), Frame::Lf { lf: position });
        input[position] = b'\r';
        assert_eq!(frame_at(&input, 0), Frame::BareCr { cr: position });
    }
}

#[test]
fn an_end_of_input_faults_label_span_is_clamped_inside_the_source() {
    // A fault raised AT the source length clamps its label onto the final byte (1..2 for a two-byte input).
    assert_eq!(framing_span(2, b"{}".len() as u64), (1, 2));
}

#[test]
fn an_in_range_fault_keeps_its_exact_one_byte_span() {
    // The clamp must not move in-range faults: a blank record's label stays at its own byte.
    assert_eq!(framing_span(8, b"{\"v\":1}\n\n{\"v\":2}\n".len() as u64), (8, 9));
}

#[test]
fn only_space_and_tab_pad_a_payload() {
    assert!(payload_is_blank(b""));
    assert!(payload_is_blank(b"   "));
    assert!(payload_is_blank(b"\t \t"));
    // A framer owns LF and CR: a payload holding one is a value candidate it must classify as a framing error, never a
    // blank record.
    assert!(!payload_is_blank(b"\r"));
    assert!(!payload_is_blank(b"\n"));
    assert!(!payload_is_blank(b"  {\"a\":1} \t"));
}

/// Every entry of a stream, in one generous poll.
fn frame_all(profile: NdjsonProfile, bytes: &[u8]) -> (Vec<RecordEntry>, Option<RecordFailure>) {
    let options = NdjsonDecodeOptions::try_new(Some(16), 1024).expect("options");
    let mut session = NdjsonRecordSession::new(profile, options);
    let limit = RecordBatchLimit { max_entries: 2, target_bytes: 1024 };
    let mut entries = Vec::new();
    for _ in 0..100 {
        let mut batch = Vec::new();
        match session.poll(bytes, 0, limit, &mut batch, 64) {
            Ok((RecordPoll::End { .. }, _)) => return (entries, None),
            Ok(_) => entries.extend(batch),
            Err(failure) => return (entries, Some(failure)),
        }
    }
    panic!("the stream does not end");
}

#[test]
fn faults_have_their_own_codes() {
    assert_eq!(framing_text(RecordIssueCode::BlankRecord).0, "blank-record");
    assert_eq!(framing_text(RecordIssueCode::InitialByteOrderMark).0, "initial-byte-order-mark");
    assert_eq!(framing_text(RecordIssueCode::BareCarriageReturn).0, "bare-carriage-return");
    assert_eq!(framing_text(RecordIssueCode::OversizeRecord).0, "record-too-large");
    assert_eq!(
        framing_text(RecordIssueCode::MissingFinalTerminator),
        framing_text(RecordIssueCode::UnframedInput)
    );
}

#[test]
fn records_carry_their_ordinals_and_payload_ranges() {
    let (entries, failure) = frame_all(NdjsonProfile::Strict, b"{\"a\":1}\r\n[2]\n3");
    assert_eq!(failure, None);
    assert_eq!(
        entries,
        vec![
            RecordEntry::Record { ordinal: 0, start: 0, end: 9, payload_start: 0, payload_end: 7 },
            RecordEntry::Record { ordinal: 1, start: 9, end: 13, payload_start: 9, payload_end: 12 },
            RecordEntry::Record { ordinal: 2, start: 13, end: 14, payload_start: 13, payload_end: 14 },
        ]
    );
}

#[test]
fn a_strict_stream_stops_at_its_first_fault_and_a_recovering_one_goes_on() {
    let bytes = b"1\n\n22222222222222222\n3\r4\n5\n";
    let (entries, failure) = frame_all(NdjsonProfile::Strict, bytes);
    assert_eq!(entries, vec![RecordEntry::Record { ordinal: 0, start: 0, end: 2, payload_start: 0, payload_end: 1 }]);
    assert_eq!(
        failure,
        Some(RecordFailure::Framing { code: RecordIssueCode::BlankRecord, record_start: 2, offset: 2 })
    );

    let (entries, failure) = frame_all(NdjsonProfile::Recovering, bytes);
    assert_eq!(failure, None);
    let codes: Vec<Option<RecordIssueCode>> = entries
        .iter()
        .map(|entry| match entry {
            RecordEntry::Record { .. } => None,
            RecordEntry::Issue { code, .. } => Some(*code),
        })
        .collect();
    assert_eq!(
        codes,
        vec![
            None,
            Some(RecordIssueCode::BlankRecord),
            Some(RecordIssueCode::OversizeRecord),
            Some(RecordIssueCode::BareCarriageReturn),
            None,
        ]
    );
    assert!(matches!(
        entries[1],
        RecordEntry::Issue { severity: RecordIssueSeverity::Advisory, offset: 2, .. }
    ));
    assert!(matches!(
        entries[2],
        RecordEntry::Issue { severity: RecordIssueSeverity::Error, offset: 19, .. }
    ));
}

#[test]
fn a_byte_order_mark_stops_a_strict_stream() {
    let (entries, failure) = frame_all(NdjsonProfile::Strict, b"\xef\xbb\xbf1\n");
    assert!(entries.is_empty());
    assert_eq!(
        failure,
        Some(RecordFailure::Framing { code: RecordIssueCode::InitialByteOrderMark, record_start: 0, offset: 0 })
    );
}

/// A strict stream's first fault is terminal, whether or not anything was framed before it.
#[test]
fn a_fault_ends_a_strict_stream() {
    let options = NdjsonDecodeOptions::try_new(None, 1024).expect("options");
    let limit = RecordBatchLimit { max_entries: 4, target_bytes: 64 };
    for bytes in [&b"\n1\n"[..], b"\xef\xbb\xbf1\n", b"1\n\n2\n"] {
        let mut session = NdjsonRecordSession::new(NdjsonProfile::Strict, options);
        let mut batch = Vec::new();
        let mut outcome = session.poll(bytes, 0, limit, &mut batch, 4);
        if outcome.is_ok() {
            batch.clear();
            outcome = session.poll(bytes, 0, limit, &mut batch, 4);
        }
        assert!(matches!(outcome, Err(RecordFailure::Framing { .. })), "{bytes:?}");
        assert_eq!(session.poll(bytes, 0, limit, &mut batch, 4), Err(RecordFailure::PolledAfterAbort));
        assert!(batch.is_empty());
    }
}

#[test]
fn an_aborted_stream_is_not_polled_again() {
    let options = NdjsonDecodeOptions::try_new(None, 1024).expect("options");
    let mut session = NdjsonRecordSession::new(NdjsonProfile::Strict, options);
    session.abort();
    let mut batch = Vec::new();
    let limit = RecordBatchLimit { max_entries: 4, target_bytes: 64 };
    assert_eq!(session.poll(b"1\n", 0, limit, &mut batch, 4), Err(RecordFailure::PolledAfterAbort));
    assert!(batch.is_empty());
}

#[test]
fn an_open_request_names_its_profile_and_ceiling() {
    let (profile, options) =
        create_registered_provider(RecordProviderOpen::Ndjson { recovering: true, max_record_bytes: 9 })
            .expect("ndjson opens");
    assert_eq!(profile, NdjsonProfile::Recovering);
    assert_eq!(options.max_record_bytes(), 9);
    assert_eq!(
        create_registered_provider(RecordProviderOpen::Ndjson { recovering: false, max_record_bytes: 0 }),
        Err(CodecFailureKind::RequirementMismatch)
    );
    assert_eq!(create_registered_provider(RecordProviderOpen::Foreign), Err(CodecFailureKind::RequirementMismatch));
    assert!(profile_matches_request(NdjsonProfile::Strict, ValidationMode::Strict));
    assert!(!profile_matches_request(NdjsonProfile::Strict, ValidationMode::Recover));
    assert_eq!(physical_route(NdjsonProfile::Strict), 4);
    assert_eq!(physical_route(NdjsonProfile::Recovering), 5);
}

fn item(value: Value) -> Item {
    Item { comments: Vec::new(), value }
}

/// A record is written compact, with exactly one terminator, and read back as the one record it is.
#[test]
fn written_records_are_read_back() {
    for (terminator, width) in [(NdjsonTerminator::Lf, 1), (NdjsonTerminator::CrLf, 2)] {
        let options = RequestOptions::Ndjson(NdjsonEncodeOptions::new(terminator));
        let config = create_registered_factory(FORMAT_ID, STRICT_DIALECT_ID, options, 64).expect("ndjson target");
        let mut encoder = JsonEncoder::new(config, FactPreservation::Exact);
        let record = item(Value::Array(vec![
            item(Value::Text(String::from("line\nbreak"))),
            item(Value::Number(NumberText::Integer(String::from("12")))),
        ]));
        let mut bytes = Vec::new();
        encoder.encode(&record, b"", &mut bytes).expect("encode");
        let payload = br#"["line\nbreak",12]"#;
        assert_eq!(bytes.len(), payload.len() + width);
        assert_eq!(&bytes[..payload.len()], payload);
        assert_eq!(&bytes[payload.len()..], terminator.bytes());
        let limit = RecordBatchLimit { max_entries: 4, target_bytes: 64 };
        let options = NdjsonDecodeOptions::try_new(None, 1024).expect("options");
        let mut session = NdjsonRecordSession::new(NdjsonProfile::Strict, options);
        let mut batch = Vec::new();
        session.poll(&bytes, 0, limit, &mut batch, 4).expect("poll");
        assert_eq!(
            batch,
            vec![RecordEntry::Record {
                ordinal: 0,
                start: 0,
                end: bytes.len() as u64,
                payload_start: 0,
                payload_end: payload.len(),
            }]
        );
    }
}

#[test]
fn only_the_strict_dialect_is_an_output_target() {
    let absent = RequestOptions::Absent;
    assert!(create_registered_factory(FORMAT_ID, STRICT_DIALECT_ID, absent, 64).is_ok());
    assert!(matches!(
        create_registered_factory(FORMAT_ID, RECOVERING_DIALECT_ID, absent, 64),
        Err(CodecFailureKind::RequirementMismatch)
    ));
    assert!(matches!(
        create_registered_factory(FORMAT_ID, STRICT_DIALECT_ID, RequestOptions::Json(JsonEncodeOptions::default()), 64),
        Err(CodecFailureKind::RequirementMismatch)
    ));
}
