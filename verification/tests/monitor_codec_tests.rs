use base64::Engine;

use clitter::adapters::{build_dib_bytes, build_drop_files_bytes};
use clitter::codec::{decode, encode, CodecError};
use clitter::monitor::{mark_as_self_copied, process_tick, ClipboardReading, MonitorState};
use clitter::types::{hash_bytes, Category, ClipboardContent, ClipboardData};

fn text_reading(s: &str) -> ClipboardReading {
    ClipboardReading::TextRead { text: s.as_bytes().to_vec() }
}

#[test]
fn test_codec_decode_then_encode_is_identity() {
    let rgba: Vec<u8> = (0u8..16).collect();
    let canonical = encode(&rgba, 2, 2).unwrap();
    let (px, w, h) = decode(&canonical).unwrap();
    assert_eq!(px, rgba);
    assert_eq!((w, h), (2, 2));
    let re = encode(&px, w, h).unwrap();
    assert_eq!(re, canonical);
}

#[test]
fn test_codec_rejects_malformed_input() {
    assert_eq!(decode(&b"short".to_vec()), Err(CodecError::Malformed));
    let mut wrong_tag = encode(&vec![0u8; 4], 1, 1).unwrap();
    wrong_tag[0] = 0x58;
    assert_eq!(decode(&wrong_tag), Err(CodecError::Malformed));

    let mut truncated = encode(&vec![0u8; 8], 2, 1).unwrap();
    truncated.pop();
    assert_eq!(decode(&truncated), Err(CodecError::SizeMismatch));

    assert_eq!(encode(&vec![0u8; 5], 1, 1), Err(CodecError::SizeMismatch));
}

#[test]
fn test_fingerprint_formula() {
    // the fingerprint folds left: h = h * 31 + byte, modulo 2^64
    assert_eq!(hash_bytes(&vec![]), 0);
    assert_eq!(hash_bytes(&vec![65]), 65);
    assert_eq!(hash_bytes(&vec![65, 97]), 65 * 31 + 97);
    // a 64-bit digest cannot be injective: two-byte inputs already collide
    assert_eq!(hash_bytes(&b"Aa".to_vec()), hash_bytes(&b"BB".to_vec()));
}

#[test]
fn test_fingerprint_ignores_metadata() {
    let a = ClipboardContent::new_text(b"same".to_vec(), Category::Text, 1, 100);
    let b = ClipboardContent::new_text(b"same".to_vec(), Category::Secure, 2, 999);
    assert_eq!(a.content_hash(), b.content_hash());
    let c = ClipboardContent::new_text(b"other".to_vec(), Category::Text, 1, 100);
    assert_ne!(a.content_hash(), c.content_hash());
}

#[test]
fn test_monitor_emits_and_deduplicates() {
    let mut st = MonitorState::new();
    let first = process_tick(&mut st, text_reading("alpha"), 1, 100);
    assert!(first.is_some());
    assert_eq!(first.unwrap().category, Category::Text);

    // the same clipboard value on the next tick is not re-emitted
    let again = process_tick(&mut st, text_reading("alpha"), 2, 101);
    assert!(again.is_none());

    // a different value is
    let other = process_tick(&mut st, text_reading("beta"), 3, 102);
    assert!(other.is_some());
}

#[test]
fn test_self_copy_suppressed_exactly_once() {
    let mut st = MonitorState::new();
    assert!(process_tick(&mut st, text_reading("alpha"), 1, 100).is_some());
    assert!(process_tick(&mut st, text_reading("beta"), 2, 101).is_some());

    // the application writes "alpha" back to the clipboard itself
    let fp = hash_bytes(&b"alpha".to_vec());
    mark_as_self_copied(&mut st, fp);

    // the echo of the self-copy is suppressed, once
    assert!(process_tick(&mut st, text_reading("alpha"), 3, 102).is_none());
    assert_eq!(st.self_copied_hash, 0);

    // a later occurrence of the same fingerprint does emit
    assert!(process_tick(&mut st, text_reading("beta"), 4, 103).is_some());
    assert!(process_tick(&mut st, text_reading("alpha"), 5, 104).is_some());
}

#[test]
fn test_monitor_image_tick_encodes_canonically() {
    let mut st = MonitorState::new();
    let rgba: Vec<u8> = vec![1, 2, 3, 4, 5, 6, 7, 8];
    let emitted = process_tick(
        &mut st,
        ClipboardReading::ImageRead { rgba: rgba.clone(), width: 2, height: 1 },
        1,
        100,
    )
    .unwrap();
    assert_eq!(emitted.category, Category::Image);
    match &emitted.data {
        ClipboardData::Image { base64, width, height, format } => {
            assert_eq!((*width, *height), (2, 1));
            assert_eq!(format, b"clip");
            // the transport encoding is standard base64 of the canonical container
            let frame = base64::engine::general_purpose::STANDARD.decode(base64).unwrap();
            assert_eq!(frame, encode(&rgba, 2, 1).unwrap());
        },
        _ => panic!("expected an image payload"),
    }

    // a buffer that disagrees with its dimensions yields no event
    let bad = process_tick(
        &mut st,
        ClipboardReading::ImageRead { rgba: vec![0u8; 3], width: 1, height: 1 },
        2,
        101,
    );
    assert!(bad.is_none());
}

#[test]
fn test_monitor_empty_reads_emit_nothing() {
    let mut st = MonitorState::new();
    assert!(process_tick(&mut st, text_reading(""), 1, 100).is_none());
    assert!(process_tick(&mut st, ClipboardReading::NoRead, 2, 101).is_none());
    assert_eq!(st, MonitorState::new());
}

#[test]
fn test_preview_truncates_to_hundred_chars() {
    let long: String = "x".repeat(150);
    let c = ClipboardContent::new_text(long.as_bytes().to_vec(), Category::Text, 1, 100);
    match &c.data {
        ClipboardData::Text { text, preview } => {
            assert_eq!(text.len(), 150);
            assert_eq!(preview.len(), 100);
        },
        _ => panic!("expected text"),
    }
    // multi-byte characters are counted as characters, not bytes
    let accented: String = "\u{e9}".repeat(120);
    let c = ClipboardContent::new_text(accented.as_bytes().to_vec(), Category::Text, 2, 100);
    match &c.data {
        ClipboardData::Text { preview, .. } => {
            assert_eq!(preview.len(), 200);
            assert_eq!(String::from_utf8(preview.clone()).unwrap().chars().count(), 100);
        },
        _ => panic!("expected text"),
    }
}

#[test]
fn test_dib_bytes_layout() {
    // one wide, two high; rows come out bottom-up with red and blue swapped
    let rgba = vec![
        1, 2, 3, 4, // top pixel
        5, 6, 7, 8, // bottom pixel
    ];
    let dib = build_dib_bytes(&rgba, 1, 2);
    assert_eq!(dib.len(), 40 + 8);
    assert_eq!(&dib[0..4], &40u32.to_le_bytes());
    assert_eq!(&dib[4..8], &1u32.to_le_bytes());
    assert_eq!(&dib[8..12], &2u32.to_le_bytes());
    assert_eq!(&dib[12..14], &1u16.to_le_bytes());
    assert_eq!(&dib[14..16], &32u16.to_le_bytes());
    assert_eq!(&dib[16..20], &0u32.to_le_bytes());
    assert_eq!(&dib[20..24], &8u32.to_le_bytes());
    assert_eq!(&dib[40..44], &[7, 6, 5, 8]);
    assert_eq!(&dib[44..48], &[3, 2, 1, 4]);
}

#[test]
fn test_drop_files_bytes_layout() {
    let path: Vec<u16> = vec![0x41, 0x42];
    let block = build_drop_files_bytes(&path);
    assert_eq!(block.len(), 20 + 4 + 4);
    assert_eq!(&block[0..4], &20u32.to_le_bytes());
    assert_eq!(&block[16..20], &1u32.to_le_bytes());
    assert_eq!(&block[20..24], &[0x41, 0, 0x42, 0]);
    assert_eq!(&block[24..28], &[0, 0, 0, 0]);
}
