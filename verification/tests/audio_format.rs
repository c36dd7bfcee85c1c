use audio_core::AudioFormat;
use std::path::PathBuf;

#[test]
fn lowercase_extensions() {
    assert_eq!(AudioFormat::from_lowercase_extension("wav"), Some(AudioFormat::Wav));
    assert_eq!(AudioFormat::from_lowercase_extension("mp3"), Some(AudioFormat::Mp3));
    assert_eq!(AudioFormat::from_lowercase_extension("flac"), Some(AudioFormat::Flac));
    assert_eq!(AudioFormat::from_lowercase_extension("ogg"), Some(AudioFormat::Ogg));
    assert_eq!(AudioFormat::from_lowercase_extension("WAV"), None);
    assert_eq!(AudioFormat::from_lowercase_extension("aac"), None);
    assert_eq!(AudioFormat::from_lowercase_extension(""), None);
}

#[test]
fn extensions_of_any_case() {
    assert_eq!(AudioFormat::from_extension("WAV"), Some(AudioFormat::Wav));
    assert_eq!(AudioFormat::from_extension("Flac"), Some(AudioFormat::Flac));
    assert_eq!(AudioFormat::from_extension("oGg"), Some(AudioFormat::Ogg));
    assert_eq!(AudioFormat::from_extension("mp4"), None);
}

#[test]
fn paths() {
    assert_eq!(AudioFormat::from_path(&PathBuf::from("song.wav")), Some(AudioFormat::Wav));
    assert_eq!(AudioFormat::from_path(&PathBuf::from("/a/b/Take.MP3")), Some(AudioFormat::Mp3));
    assert_eq!(AudioFormat::from_path(&PathBuf::from("dir.flac/readme")), None);
    assert_eq!(AudioFormat::from_path(&PathBuf::from("archive.tar.ogg")), Some(AudioFormat::Ogg));
    assert_eq!(AudioFormat::from_path(&PathBuf::from(".wav")), None);
    assert_eq!(AudioFormat::from_path(&PathBuf::from("noext")), None);
    assert_eq!(AudioFormat::from_path(&PathBuf::from("song.txt")), None);
}
