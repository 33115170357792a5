//! The prefix scans and the windowed UTF-8 scan, against the byte-by-byte predicates and the standard library.

use jqf_codec_json::byte_scan::{
    delimiter_prefix_len, escape_prefix_len, is_json_ws, needs_escape, plain_string_prefix_len,
    plain_string_prefix_len_short, prefix_len, push_comment, push_reserved, structural_prefix_len, utf8_first_invalid,
    ws_prefix_len, ResourceError, StopSet, Utf8Carry,
};

/// The byte-by-byte escape prefix.
fn scalar_escape_prefix(bytes: &[u8]) -> usize {
    bytes.iter().take_while(|byte| !needs_escape(**byte)).count()
}

/// The byte-by-byte whitespace prefix.
fn scalar_ws_prefix(bytes: &[u8]) -> usize {
    bytes.iter().take_while(|byte| is_json_ws(**byte)).count()
}

#[test]
fn ws_prefix_agrees_with_the_scalar_predicate_at_every_alignment() {
    let mut corpus: Vec<Vec<u8>> = vec![
        Vec::new(),
        b"a".to_vec(),
        b" ".to_vec(),
        b"\t".to_vec(),
        b"\n".to_vec(),
        b"\r".to_vec(),
        b"\x0b".to_vec(),
        b"  a".to_vec(),
        b"\n\n\n".to_vec(),
        b"\r\n  \t".to_vec(),
        b" \t\n\r a".to_vec(),
        b"{\"k\": 1}".to_vec(),
    ];
    let mut state = 0xa076_1d64_78bd_642f_u64;
    let mix = |state: &mut u64| {
        *state ^= *state << 13;
        *state ^= *state >> 7;
        *state ^= *state << 17;
        *state
    };
    for len in 0..48 {
        let mut bytes = Vec::with_capacity(len);
        for _ in 0..len {
            // Bias the corpus toward whitespace and near-whitespace.
            let r = mix(&mut state);
            bytes.push(match r % 8 {
                0..=4 => b" \t\n\r"[((r >> 8) & 3) as usize],
                _ => ((r >> 16) & 0xFF) as u8,
            });
        }
        corpus.push(bytes);
    }
    for bytes in &corpus {
        for start in 0..=bytes.len().min(3) {
            for end in start..=bytes.len().min(start + 48) {
                let slice = &bytes[start..end];
                assert_eq!(
                    ws_prefix_len(slice),
                    scalar_ws_prefix(slice),
                    "ws_prefix mismatch at {start}..{end} of {bytes:?}"
                );
            }
        }
    }
}

#[test]
fn escape_prefix_agrees_with_the_scalar_predicate_at_every_alignment() {
    let mut corpus: Vec<Vec<u8>> = vec![
        Vec::new(),
        b"a".to_vec(),
        b"\"".to_vec(),
        b"\\".to_vec(),
        b"\x1f".to_vec(),
        b"\x20".to_vec(),
        b"\x7f".to_vec(),
        b"\x80".to_vec(),
        b"\x7e".to_vec(),
        b"plain text".to_vec(),
        b"\"escaped\"".to_vec(),
        b"a\x7fb\x80c\x1fd".to_vec(),
    ];
    let mut state = 0x9e37_79b9_7f4a_7c15_u64;
    let mix = |state: &mut u64| {
        *state ^= *state << 13;
        *state ^= *state >> 7;
        *state ^= *state << 17;
        *state
    };
    for len in 0..48 {
        let mut bytes = Vec::with_capacity(len);
        for _ in 0..len {
            bytes.push((mix(&mut state) & 0xFF) as u8);
        }
        corpus.push(bytes);
    }
    for bytes in &corpus {
        for start in 0..=bytes.len().min(3) {
            for end in start..=bytes.len().min(start + 40) {
                let slice = &bytes[start..end];
                assert_eq!(
                    escape_prefix_len(slice, false),
                    scalar_escape_prefix(slice),
                    "escape_prefix mismatch at {start}..{end} of {bytes:?}"
                );
            }
        }
    }
}

#[test]
fn structural_prefix_agrees_with_the_scalar_predicate_at_every_alignment() {
    let mut corpus: Vec<Vec<u8>> = vec![
        Vec::new(),
        b"plain".to_vec(),
        b"{\"a\":1}".to_vec(),
        b"[1,[2]]".to_vec(),
        b"\"\"".to_vec(),
        b"a}b[".to_vec(),
        b"\x00\x7f\x80".to_vec(),
    ];
    let mut state = 0xb10c_5a2d_3e4f_6071_u64;
    let mix = |state: &mut u64| {
        *state ^= *state << 13;
        *state ^= *state >> 7;
        *state ^= *state << 17;
        *state
    };
    for len in 0..48 {
        let mut bytes = Vec::with_capacity(len);
        for _ in 0..len {
            bytes.push((mix(&mut state) & 0xFF) as u8);
        }
        corpus.push(bytes);
    }
    let scalar = |bytes: &[u8]| {
        bytes
            .iter()
            .take_while(|byte| !matches!(byte, b'"' | b'{' | b'[' | b'}' | b']'))
            .count()
    };
    for bytes in &corpus {
        for start in 0..=bytes.len().min(3) {
            for end in start..=bytes.len().min(start + 40) {
                let slice = &bytes[start..end];
                assert_eq!(
                    structural_prefix_len(slice),
                    scalar(slice),
                    "structural_prefix mismatch at {start}..{end} of {bytes:?}"
                );
            }
        }
    }
}

#[test]
fn delimiter_prefix_agrees_with_the_scalar_predicate_at_every_alignment() {
    let mut corpus: Vec<Vec<u8>> = vec![
        Vec::new(),
        b"123,".to_vec(),
        b"true".to_vec(),
        b"null}".to_vec(),
        b"\"a\"".to_vec(),
        b" \t\n\r".to_vec(),
        b"a]b}c".to_vec(),
        b"\x1f\x80\xff".to_vec(),
    ];
    let mut state = 0x2b7e_1516_2829_3031_u64;
    let mix = |state: &mut u64| {
        *state ^= *state << 13;
        *state ^= *state >> 7;
        *state ^= *state << 17;
        *state
    };
    for len in 0..48 {
        let mut bytes = Vec::with_capacity(len);
        for _ in 0..len {
            bytes.push((mix(&mut state) & 0xFF) as u8);
        }
        corpus.push(bytes);
    }
    let scalar = |bytes: &[u8]| {
        bytes
            .iter()
            .take_while(|byte| !matches!(byte, b' ' | b'\t' | b'\n' | b'\r' | b',' | b']' | b'}'))
            .count()
    };
    for bytes in &corpus {
        for start in 0..=bytes.len().min(3) {
            for end in start..=bytes.len().min(start + 40) {
                let slice = &bytes[start..end];
                assert_eq!(
                    delimiter_prefix_len(slice),
                    scalar(slice),
                    "delimiter_prefix mismatch at {start}..{end} of {bytes:?}"
                );
            }
        }
    }
}

#[test]
fn escape_prefix_keeps_the_plain_run_contract() {
    // A run must contain no byte the writer would escape, and must stop at the first one.
    for byte in 0_u8..=u8::MAX {
        let bytes = [b'a', b'b', byte, b'c'];
        let run = escape_prefix_len(&bytes, false);
        assert!(run <= bytes.len(), "run overran at byte {byte}");
        if run < bytes.len() {
            assert!(needs_escape(bytes[run]), "run stopped early at byte {byte}");
        }
        for (prior, &passed) in bytes[..run].iter().enumerate() {
            assert!(!needs_escape(passed), "run skipped byte {prior} at {byte}");
        }
    }
}

#[test]
fn plain_prefix_keeps_its_own_contract() {
    for byte in 0_u8..=u8::MAX {
        let bytes = [byte, b'x'];
        let run = plain_string_prefix_len(&bytes);
        assert!(run <= 2);
        if run < 2 {
            let stopped = bytes[run];
            assert!(
                !(0x20..=0x7e).contains(&stopped) || matches!(stopped, b'"' | b'\\'),
                "plain run stopped at a plain byte {stopped:#x} at {byte}"
            );
        }
        if run > 0 {
            let passed = bytes[0];
            assert!(
                matches!(passed, 0x20..=0x7e) && !matches!(passed, b'"' | b'\\'),
                "plain run admitted {passed:#x} at {byte}"
            );
        }
    }
}

#[test]
fn escape_prefix_stops_inside_a_lane_whose_bytes_are_all_below_space() {
    // Sixteen control bytes in a row, none of which a run may pass.
    for control in [0x00_u8, 0x01, 0x09, 0x0a, 0x0d, 0x1f] {
        let lane = [control; 16];
        assert_eq!(
            escape_prefix_len(&lane, false),
            0,
            "a lane of {control:#x} must not be admitted"
        );
        let mut mixed = vec![b'a'; 16];
        mixed.extend_from_slice(&lane);
        assert_eq!(
            escape_prefix_len(&mixed, false),
            16,
            "the run must stop at the {control:#x} lane"
        );
    }
    // The complement: a lane of bytes that need no escaping must still be admitted whole, including the 0x20 and
    // 0x7e boundaries.
    for plain in [0x20_u8, 0x21, 0x5b, 0x7e, 0x80, 0xff] {
        let lane = [plain; 16];
        assert_eq!(
            escape_prefix_len(&lane, false),
            16,
            "a lane of {plain:#x} must be admitted whole"
        );
    }
}

#[test]
fn prefix_scans_agree_with_the_scalar_predicates_at_lane_boundaries() {
    // Adversarial placement: each terminator at every position around the first and second lane boundaries, over
    // both prefix scans.
    for terminator in [b'"', b'\\', 0x00, 0x01, 0x1f, 0x7f, 0x80, 0xff] {
        for position in 0..40 {
            let mut bytes = vec![b'a'; 40];
            bytes[position] = terminator;
            assert_eq!(
                escape_prefix_len(&bytes, false),
                scalar_escape_prefix(&bytes),
                "escape_prefix with {terminator:#x} at {position}"
            );
            let expected_plain = bytes
                .iter()
                .take_while(|byte| matches!(byte, 0x20..=0x7e) && !matches!(byte, b'"' | b'\\'))
                .count();
            assert_eq!(
                plain_string_prefix_len(&bytes),
                expected_plain,
                "plain_prefix with {terminator:#x} at {position}"
            );
            assert_eq!(
                plain_string_prefix_len_short(&bytes),
                expected_plain,
                "plain_prefix_short with {terminator:#x} at {position}"
            );
        }
    }
}
const HIGH: [u8; 8] = [0xC3, 0xE2, 0xF0, 0xED, 0x80, 0x82, 0x9F, 0xFF];

fn oracle(bytes: &[u8]) -> Option<usize> {
    match std::str::from_utf8(bytes) {
        Ok(_) => None,
        Err(error) => Some(error.valid_up_to()),
    }
}

fn whole_scan(bytes: &[u8]) -> Option<usize> {
    let mut carry = Utf8Carry::empty();
    utf8_first_invalid(bytes, 0, &mut carry, true)
}

#[test]
fn utf8_kernel_agrees_with_from_utf8_over_adversarial_corpora() {
    // Every single byte, and every two-byte window.
    for first in 0_u8..=u8::MAX {
        let bytes = [first];
        assert_eq!(whole_scan(&bytes), oracle(&bytes), "byte {first}");
    }
    for first in 0_u8..=u8::MAX {
        for second in 0_u8..=u8::MAX {
            let bytes = [first, second];
            assert_eq!(whole_scan(&bytes), oracle(&bytes), "bytes {first} {second}");
        }
    }
    // Every truncation of the interesting 2-4 byte sequences.
    for lead in [0xC2, 0xDF, 0xE0, 0xE1, 0xEC, 0xED, 0xEE, 0xF0, 0xF1, 0xF4, 0xF5] {
        for tail in 0_u8..=u8::MAX {
            let bytes = [lead, tail];
            assert_eq!(whole_scan(&bytes), oracle(&bytes), "lead {lead:#x} tail {tail}");
            let bytes = [lead, tail, 0x80];
            assert_eq!(whole_scan(&bytes), oracle(&bytes), "lead {lead:#x} tail {tail} x2");
            let bytes = [lead, tail, 0x80, 0x80];
            assert_eq!(whole_scan(&bytes), oracle(&bytes), "lead {lead:#x} tail {tail} x3");
        }
    }
    // A pseudo-random corpus with bias toward high bytes.
    let mut state = 0xd1b5_4a32_d192_ed03_u64;
    let mix = |state: &mut u64| {
        *state ^= *state << 13;
        *state ^= *state >> 7;
        *state ^= *state << 17;
        *state
    };
    for len in 0..40 {
        let mut bytes = Vec::with_capacity(len);
        for _ in 0..len {
            let r = mix(&mut state);
            bytes.push(if r % 4 == 0 {
                ((r >> 8) & 0xFF) as u8
            } else {
                HIGH[((r >> 16) & 7) as usize]
            });
        }
        assert_eq!(whole_scan(&bytes), oracle(&bytes), "random len {len}: {bytes:?}");
    }
}

#[test]
fn utf8_kernel_windows_agree_with_the_whole_buffer() {
    // Splitting a buffer at every boundary must give the same first invalid byte as validating it whole, with the
    // carry crossing windows.
    let seeds: &[&[u8]] = &[
        b"",
        b"hello",
        "héllo wörld".as_bytes(),
        "日本語テキスト".as_bytes(),
        b"{\"k\":\"\xC3\xA9\",\"n\":123}",
        b"truncated \xE2\x82",
        b"bad \xE2\x82\x28 here",
        b"overlong \xC0\xAF",
        b"surrogate \xED\xA0\x80",
        b"\xF4\x90\x80\x80 past range",
        b"\xF0\x90\x80\x80 valid four",
        b"\xE2\x82\xAC euro",
        "mix: 中文 + é + \u{1F600} emoji".as_bytes(),
        b"\x22\xC3\x2B ra, u",
        b"\x22\xC3\x28 ra, u",
    ];
    for seed in seeds {
        let expected = oracle(seed);
        for split in 0..=seed.len() {
            let mut carry = Utf8Carry::empty();
            let mut found = None;
            if let Some(pos) = utf8_first_invalid(&seed[..split], 0, &mut carry, false) {
                found = Some(pos);
            }
            if found.is_none() {
                if let Some(pos) = utf8_first_invalid(&seed[split..], split, &mut carry, true) {
                    found = Some(pos);
                }
            }
            assert_eq!(
                found, expected,
                "window split at {split} of {seed:?} (carry len {})",
                carry.pending().len()
            );
        }
    }
}

#[test]
fn utf8_ascii_fast_path_is_clean_and_honors_carried_leads() {
    // Pure ASCII: no error at any window split.
    let ascii = b"{\"catalog\":[{\"name\":\"item-000\",\"kind\":\"x\"}],\"n\":1234567890}";
    assert!(ascii.len() >= 48, "fixture must span several lanes");
    for split in 0..=ascii.len() {
        let mut carry = Utf8Carry::empty();
        assert_eq!(
            utf8_first_invalid(&ascii[..split], 0, &mut carry, false),
            None,
            "ascii prefix window at {split}"
        );
        assert_eq!(
            utf8_first_invalid(&ascii[split..], split, &mut carry, true),
            None,
            "ascii suffix window at {split}"
        );
    }

    // A 3-byte lead truncated at a window's end, followed by ASCII alone: the error is at the lead.
    let mut bytes = vec![b'a'; 15];
    bytes.push(0xE2);
    bytes.extend(std::iter::repeat(b'b').take(16));
    let lead_pos = 15;
    let mut carry = Utf8Carry::empty();
    assert_eq!(
        utf8_first_invalid(&bytes[..16], 0, &mut carry, false),
        None,
        "the truncated lead is carried, not reported"
    );
    assert_eq!(carry.pending().len(), 1, "the 3-byte lead is pending");
    assert_eq!(
        utf8_first_invalid(&bytes[16..], 16, &mut carry, true),
        Some(lead_pos),
        "a non-continuation after the carried lead is reported at its lead"
    );

    // The same layout with ONE continuation after the carried lead is still an error: 0xE2 demands two, and the
    // second slot holds `b`.
    let mut short = vec![b'a'; 15];
    short.push(0xE2);
    short.push(0x82);
    short.extend(std::iter::repeat(b'b').take(15));
    assert_eq!(oracle(&short), Some(lead_pos), "fixture is invalid UTF-8");
    let mut carry = Utf8Carry::empty();
    assert_eq!(utf8_first_invalid(&short[..16], 0, &mut carry, false), None);
    assert_eq!(carry.pending().len(), 1);
    assert_eq!(
        utf8_first_invalid(&short[16..], 16, &mut carry, true),
        Some(lead_pos),
        "a carried 3-byte lead one continuation short is reported at its lead"
    );

    // The same layout with BOTH continuations present is clean.
    let mut ok = vec![b'a'; 15];
    ok.push(0xE2);
    ok.push(0x82);
    ok.push(0xAC);
    ok.extend(std::iter::repeat(b'b').take(14));
    assert_eq!(oracle(&ok), None, "fixture is valid UTF-8");
    let mut carry = Utf8Carry::empty();
    assert_eq!(utf8_first_invalid(&ok[..16], 0, &mut carry, false), None);
    assert_eq!(carry.pending().len(), 1);
    assert_eq!(
        utf8_first_invalid(&ok[16..], 16, &mut carry, true),
        None,
        "a carried lead completed by both continuations stays clean"
    );
}

#[test]
fn utf8_fast_path_never_skips_a_lane_of_bytes_above_ascii() {
    // Sixteen bytes that are ALL above 0x80 must not be taken for ASCII.
    for byte in 0x81_u8..=0xFF {
        let lane = [byte; 16];
        assert_eq!(whole_scan(&lane), oracle(&lane), "full lane of {byte:#x}");
        // The same bytes between ASCII ones.
        let mut padded = vec![b'a'; 16];
        padded.extend_from_slice(&lane);
        padded.extend(std::iter::repeat(b'a').take(16));
        assert_eq!(
            whole_scan(&padded),
            oracle(&padded),
            "ascii-sandwiched lane of {byte:#x}"
        );
    }
    // Valid multi-byte text must still be accepted.
    let euro_lane = "€€€€€".as_bytes(); // 5 x 3 bytes = 15
    let mut valid = euro_lane.to_vec();
    valid.push(b'a');
    assert_eq!(valid.len(), 16);
    assert_eq!(whole_scan(&valid), None, "a full lane of valid UTF-8");
    let two_byte_lane = "éééééééé".as_bytes(); // 8 x 2 bytes = 16
    assert_eq!(two_byte_lane.len(), 16);
    assert_eq!(whole_scan(two_byte_lane), None, "a full lane of two-byte scalars");
}

#[test]
fn utf8_lane_boundary_leads_demand_every_continuation_they_owe() {
    // Every truncation depth is checked against `from_utf8`, so both under- and over-rejection fail.
    for (lead, conts) in [
        (0xE2_u8, &[0x82_u8, 0xAC][..]), // U+20AC
        (0xF0, &[0x90, 0x80, 0x80][..]), // U+10000
        (0xF4, &[0x8F, 0xBF, 0xBF][..]), // U+10FFFF
        (0xC3, &[0xA9][..]),             // U+00E9
    ] {
        for lead_pos in [13_usize, 14, 15] {
            for supplied in 0..=conts.len() {
                let mut bytes = vec![b'a'; lead_pos];
                bytes.push(lead);
                bytes.extend_from_slice(&conts[..supplied]);
                while bytes.len() < 48 {
                    bytes.push(b'b');
                }
                let expected = oracle(&bytes);
                assert_eq!(
                    whole_scan(&bytes),
                    expected,
                    "lead {lead:#x} at {lead_pos} with {supplied} continuations"
                );
                // And the same bytes split into two windows at every boundary near the sequence, so the carry path
                // sees it too.
                for split in lead_pos..=(lead_pos + conts.len() + 1) {
                    let mut carry = Utf8Carry::empty();
                    let mut found = utf8_first_invalid(&bytes[..split], 0, &mut carry, false);
                    if found.is_none() {
                        found = utf8_first_invalid(&bytes[split..], split, &mut carry, true);
                    }
                    assert_eq!(
                        found, expected,
                        "lead {lead:#x} at {lead_pos} with {supplied} continuations, \
                         split at {split}"
                    );
                }
            }
        }
    }
}

#[test]
fn utf8_kernel_agrees_with_from_utf8_across_several_lane_boundaries() {
    // Longer buffers, with high bytes dense enough that leads land everywhere.
    let mut state = 0x2545_f491_4f6c_dd1d_u64;
    let mix = |state: &mut u64| {
        *state ^= *state << 13;
        *state ^= *state >> 7;
        *state ^= *state << 17;
        *state
    };
    for len in 40..96 {
        let mut bytes = Vec::with_capacity(len);
        for _ in 0..len {
            let r = mix(&mut state);
            bytes.push(if r % 3 == 0 {
                b'a'
            } else {
                HIGH[((r >> 16) & 7) as usize]
            });
        }
        assert_eq!(
            whole_scan(&bytes),
            oracle(&bytes),
            "lane-crossing corpus len {len}: {bytes:?}"
        );
        for split in [0, 1, 15, 16, 17, 31, 32, 33, len] {
            let expected = oracle(&bytes);
            let mut carry = Utf8Carry::empty();
            let mut found = utf8_first_invalid(&bytes[..split], 0, &mut carry, false);
            if found.is_none() {
                found = utf8_first_invalid(&bytes[split..], split, &mut carry, true);
            }
            assert_eq!(
                found, expected,
                "lane-crossing corpus len {len} split {split}: {bytes:?}"
            );
        }
    }
}

#[test]
fn utf8_kernel_truncated_lead_is_carried_and_reported_at_its_lead() {
    let lead_pos = 5;
    for (lead, conts, complete, expect_error) in [
        // (lead, continuations in window 2, bytes that complete it, whether it is still truncated)
        (0xC2, &[0x80][..], &[][..], false),
        (0xE2, &[0x82][..], &[0xAC][..], true),
        (0xE2, &[0x82, 0xAC][..], &[][..], false),
        (0xF0, &[0x90, 0x80][..], &[0x80][..], true),
    ] {
        let mut bytes = vec![b'a'; lead_pos];
        bytes.push(lead);
        bytes.extend_from_slice(conts);
        // Split so the lead lands in the first (non-final) window; the continuations land in the second.
        let split = lead_pos + 1;
        let mut carry = Utf8Carry::empty();
        assert_eq!(
            utf8_first_invalid(&bytes[..split], 0, &mut carry, false),
            None,
            "truncated lead {lead:#x} must carry"
        );
        assert_eq!(carry.pending().len(), 1, "carry must hold just the lead");
        assert_eq!(carry.pending()[0], lead);
        assert_eq!(
            utf8_first_invalid(&bytes[split..], split, &mut carry, true),
            if expect_error { Some(lead_pos) } else { None },
            "lead {lead:#x} over conts {conts:?} on the final chunk"
        );
        // The same bytes with the sequence completed are valid.
        let mut done = vec![b'a'; lead_pos];
        done.push(lead);
        done.extend_from_slice(conts);
        done.extend_from_slice(complete);
        let mut carry = Utf8Carry::empty();
        assert_eq!(utf8_first_invalid(&done[..split], 0, &mut carry, false), None);
        assert_eq!(utf8_first_invalid(&done[split..], split, &mut carry, true), None);
    }
}

#[test]
fn rs_prefix_agrees_with_the_scalar_predicate_at_every_alignment() {
    let mut corpus: Vec<Vec<u8>> = vec![Vec::new(), b"\x1e".to_vec(), b"a\x1eb".to_vec(), b"a b\n".to_vec()];
    let mut state = 0x5eed_5eed_5eed_5eed_u64;
    let mix = |state: &mut u64| {
        *state ^= *state << 13;
        *state ^= *state >> 7;
        *state ^= *state << 17;
        *state
    };
    for len in 0..48 {
        let mut bytes = Vec::with_capacity(len);
        for _ in 0..len {
            let r = mix(&mut state);
            bytes.push(if r % 4 == 0 { 0x1e } else { (r & 0xFF) as u8 });
        }
        corpus.push(bytes);
    }
    for bytes in &corpus {
        for start in 0..=bytes.len().min(3) {
            for end in start..=bytes.len().min(start + 48) {
                let slice = &bytes[start..end];
                assert_eq!(
                    prefix_len(StopSet::Rs, slice),
                    slice.iter().take_while(|b| !StopSet::Rs.hit(**b)).count(),
                    "Rs mismatch at {start}..{end} of {bytes:?}"
                );
            }
        }
    }
}

/// A comment joins its run where room was reserved, and a refused reservation leaves the run as it was.
#[test]
fn a_refused_reservation_leaves_the_run() {
    let mut run = vec![String::from("a")];
    assert!(push_reserved(&mut run, String::from("b"), Ok(())).is_ok());
    assert_eq!(run, ["a", "b"]);
    assert!(push_reserved(&mut run, String::from("c"), Err(ResourceError::Allocation)).is_err());
    assert_eq!(run, ["a", "b"]);
    assert!(push_comment(&mut run, b"c \xff").is_ok());
    assert_eq!(run, ["a", "b", "c \u{fffd}"]);
}
