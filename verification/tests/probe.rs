use funkot_player::probe::{probe_metadata, probe_title_artist};

/// A playable one-sample PCM WAV file, with `info` as its LIST INFO body
/// when given.
fn wav(info: Option<&[(&[u8; 4], &[u8])]>) -> Vec<u8> {
    let mut body = Vec::new();
    body.extend_from_slice(b"WAVE");
    body.extend_from_slice(b"fmt ");
    body.extend_from_slice(&16_u32.to_le_bytes());
    body.extend_from_slice(&1_u16.to_le_bytes()); // PCM
    body.extend_from_slice(&1_u16.to_le_bytes()); // mono
    body.extend_from_slice(&8000_u32.to_le_bytes());
    body.extend_from_slice(&16000_u32.to_le_bytes());
    body.extend_from_slice(&2_u16.to_le_bytes());
    body.extend_from_slice(&16_u16.to_le_bytes());
    if let Some(fields) = info {
        let mut list = b"INFO".to_vec();
        for (key, value) in fields {
            list.extend_from_slice(*key);
            list.extend_from_slice(&(value.len() as u32).to_le_bytes());
            list.extend_from_slice(value);
            if value.len() % 2 == 1 {
                list.push(0);
            }
        }
        body.extend_from_slice(b"LIST");
        body.extend_from_slice(&(list.len() as u32).to_le_bytes());
        body.extend_from_slice(&list);
    }
    body.extend_from_slice(b"data");
    body.extend_from_slice(&2_u32.to_le_bytes());
    body.extend_from_slice(&[0, 0]);
    let mut bytes = b"RIFF".to_vec();
    bytes.extend_from_slice(&(body.len() as u32).to_le_bytes());
    bytes.extend_from_slice(&body);
    bytes
}

#[test]
fn unreadable_bytes_are_a_probe_error() {
    assert!(probe_metadata(b"not an audio file at all", Some("mp3")).is_err());
    assert!(probe_title_artist(b"not an audio file at all", Some("mp3")).is_err());
}

#[test]
fn a_wav_file_gets_its_info_title_whatever_the_extension_case() {
    let bytes = wav(Some(&[(b"INAM", b"Title"), (b"IART", b"Artist")]));
    let m = probe_metadata(&bytes, Some("WAV")).unwrap();
    assert_eq!(m.title.as_deref(), Some("Title"));
    assert_eq!(m.artist.as_deref(), Some("Artist"));
}

#[test]
fn a_wav_file_without_tags_has_no_metadata() {
    let bytes = wav(None);
    let m = probe_metadata(&bytes, Some("wav")).unwrap();
    assert_eq!(m.title, None);
    assert!(m.genres.is_empty() && m.year_candidates.is_empty());
    assert_eq!(probe_title_artist(&bytes, Some("wav")).unwrap(), (None, None));
}
