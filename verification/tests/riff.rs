use funkot_player::metadata::Metadata;
use funkot_player::riff::collect_wav_info;

/// The per-field budget of RIFF INFO text.
const MAX_RIFF_INFO_VALUE_BYTES: u64 = 1024 * 1024;

#[test]
fn malformed_riff_info_length_is_an_error_before_any_large_allocation() {
    let mut bytes = Vec::new();
    bytes.extend_from_slice(b"RIFF");
    bytes.extend_from_slice(&24_u32.to_le_bytes());
    bytes.extend_from_slice(b"WAVE");
    bytes.extend_from_slice(b"LIST");
    bytes.extend_from_slice(&12_u32.to_le_bytes());
    bytes.extend_from_slice(b"INFOINAM");
    bytes.extend_from_slice(&u32::MAX.to_le_bytes());
    let mut metadata = Metadata::new();
    let result = collect_wav_info(&bytes, &mut metadata);
    assert!(matches!(result, Err(ref error) if error.contains("field length")), "{result:?}");
    assert_eq!(metadata, Metadata::new());
}

#[test]
fn in_bounds_oversized_riff_title_and_date_are_skipped_with_diagnostics() {
    let value_len = (MAX_RIFF_INFO_VALUE_BYTES + 1) as u32;
    let value = vec![b'x'; value_len as usize];
    let list_size = 4_u64 + 8 + u64::from(value_len) + (u64::from(value_len) % 2) + 8 + u64::from(value_len) + (u64::from(value_len) % 2);
    let mut bytes = Vec::new();
    bytes.extend_from_slice(b"RIFF");
    bytes.extend_from_slice(&0_u32.to_le_bytes());
    bytes.extend_from_slice(b"WAVE");
    bytes.extend_from_slice(b"LIST");
    bytes.extend_from_slice(&(list_size as u32).to_le_bytes());
    bytes.extend_from_slice(b"INFO");
    for key in [b"INAM", b"ICRD"] {
        bytes.extend_from_slice(key);
        bytes.extend_from_slice(&value_len.to_le_bytes());
        bytes.extend_from_slice(&value);
        if value_len % 2 == 1 {
            bytes.push(0);
        }
    }
    let riff_size = (bytes.len() - 8) as u32;
    bytes[4..8].copy_from_slice(&riff_size.to_le_bytes());
    let mut metadata = Metadata::new();
    let result = collect_wav_info(&bytes, &mut metadata);
    assert_eq!(result, Ok(()));
    assert_eq!(metadata.title, None);
    assert!(metadata.year_candidates.is_empty());
    assert!(metadata.diagnostics.iter().any(|message| message.contains("INAM")));
    assert!(metadata.diagnostics.iter().any(|message| message.contains("ICRD")));
}

#[test]
fn a_small_info_list_sets_title_artist_and_date() {
    let mut info = Vec::new();
    info.extend_from_slice(b"INFO");
    for (key, value) in [(b"INAM", &b"Title\0"[..]), (b"IART", &b"Artist"[..]), (b"ICRD", &b"2024\0"[..])] {
        info.extend_from_slice(key);
        info.extend_from_slice(&(value.len() as u32).to_le_bytes());
        info.extend_from_slice(value);
        if value.len() % 2 == 1 {
            info.push(0);
        }
    }
    let mut bytes = Vec::new();
    bytes.extend_from_slice(b"RIFF");
    bytes.extend_from_slice(&((4 + 8 + info.len()) as u32).to_le_bytes());
    bytes.extend_from_slice(b"WAVE");
    bytes.extend_from_slice(b"LIST");
    bytes.extend_from_slice(&(info.len() as u32).to_le_bytes());
    bytes.extend_from_slice(&info);
    let mut metadata = Metadata::new();
    assert_eq!(collect_wav_info(&bytes, &mut metadata), Ok(()));
    assert_eq!(metadata.title.as_deref(), Some("Title"));
    assert_eq!(metadata.artist.as_deref(), Some("Artist"));
    assert_eq!(metadata.year_candidates.len(), 1);
    assert_eq!(metadata.year_candidates[0].raw_value, "2024");
}

#[test]
fn a_file_that_is_not_wave_is_left_alone() {
    let mut metadata = Metadata::new();
    assert_eq!(collect_wav_info(b"ID3\x04\x00\x00\x00\x00\x00\x00", &mut metadata), Ok(()));
    assert_eq!(metadata, Metadata::new());
}
