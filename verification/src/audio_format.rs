//! Audio file formats, recognised by file extension.
use std::path::PathBuf;
use vstd::prelude::*;

verus! {

#[verifier::external_type_specification]
#[verifier::external_body]
pub struct ExPathBuf(PathBuf);

/// Name for the extension of a path read as text: the part of the final
/// file name after its last dot (a leading dot does not count), `None` when
/// there is no such part or it is not valid UTF-8. What `Path::extension`
/// followed by `OsStr::to_str` gives.
pub uninterp spec fn path_extension_text(path: &PathBuf) -> Option<Seq<char>>;

/// Name for the lowercase form of a text, by the Unicode `Lowercase`
/// mapping, as `str::to_lowercase` computes it.
pub uninterp spec fn lowercase(text: Seq<char>) -> Seq<char>;

/// Calls `Path::extension` and reads the result as UTF-8 with `OsStr::to_str`.
/// Trusted: the text handed back is `path_extension_text(path)`, which depends
/// on the path alone.
#[verifier::external_body]
fn path_extension(path: &PathBuf) -> (ext: Option<&str>)
    ensures
        match ext {
            Some(e) => path_extension_text(path) == Some(e@),
            None => path_extension_text(path) is None,
        },
{
    match path.extension() {
        Some(e) => e.to_str(),
        None => None,
    }
}

/// Calls `str::to_lowercase`. Trusted: the result is `lowercase(text)`, which
/// depends on the text alone.
#[verifier::external_body]
fn to_lowercase(text: &str) -> (lower: String)
    ensures
        lower@ == lowercase(text@),
{
    text.to_lowercase()
}

/// A supported audio file format.
#[derive(Debug, Clone, Copy, PartialEq, Eq, Structural)]
pub enum AudioFormat {
    Wav,
    Mp3,
    Flac,
    Ogg,
}

/// The format named by an extension already in lowercase.
pub open spec fn format_of_lowercase(ext: Seq<char>) -> Option<AudioFormat> {
    if ext == "wav"@ {
        Some(AudioFormat::Wav)
    } else if ext == "mp3"@ {
        Some(AudioFormat::Mp3)
    } else if ext == "flac"@ {
        Some(AudioFormat::Flac)
    } else if ext == "ogg"@ {
        Some(AudioFormat::Ogg)
    } else {
        None
    }
}

/// An extension in lowercase names a format exactly when it is `wav`,
/// `mp3`, `flac` or `ogg`, each naming its own format; every other
/// extension names none.
pub proof fn lemma_format_names(ext: Seq<char>)
    ensures
        format_of_lowercase(ext) == Some(AudioFormat::Wav) <==> ext == "wav"@,
        format_of_lowercase(ext) == Some(AudioFormat::Mp3) <==> ext == "mp3"@,
        format_of_lowercase(ext) == Some(AudioFormat::Flac) <==> ext == "flac"@,
        format_of_lowercase(ext) == Some(AudioFormat::Ogg) <==> ext == "ogg"@,
        format_of_lowercase(ext) is None <==> (ext != "wav"@ && ext != "mp3"@ && ext != "flac"@
            && ext != "ogg"@),
{
    reveal_strlit("wav");
    reveal_strlit("mp3");
    reveal_strlit("flac");
    reveal_strlit("ogg");
    assert("wav"@ != "mp3"@ && "wav"@ != "ogg"@ && "mp3"@ != "ogg"@) by {
        assert("wav"@[0] != "mp3"@[0]);
        assert("wav"@[0] != "ogg"@[0]);
        assert("mp3"@[0] != "ogg"@[0]);
    }
    assert("flac"@.len() == 4 && "wav"@.len() == 3);
}

/// The format named by an extension of any case.
pub open spec fn format_of_extension(ext: Seq<char>) -> Option<AudioFormat> {
    format_of_lowercase(lowercase(ext))
}

impl AudioFormat {
    /// The format named by a lowercase extension: `wav`, `mp3`, `flac` or
    /// `ogg`; `None` for any other text.
    pub fn from_lowercase_extension(ext: &str) -> (r: Option<Self>)
        ensures
            r == format_of_lowercase(ext@),
    {
        let e = ext.to_owned();
        if e == "wav".to_owned() {
            Some(AudioFormat::Wav)
        } else if e == "mp3".to_owned() {
            Some(AudioFormat::Mp3)
        } else if e == "flac".to_owned() {
            Some(AudioFormat::Flac)
        } else if e == "ogg".to_owned() {
            Some(AudioFormat::Ogg)
        } else {
            None
        }
    }

    /// The format named by an extension, whatever its case.
    pub fn from_extension(ext: &str) -> (r: Option<Self>)
        ensures
            r == format_of_extension(ext@),
    {
        let lower = to_lowercase(ext);
        Self::from_lowercase_extension(lower.as_str())
    }

    /// The format named by the extension of a path, whatever its case; `None`
    /// when the path has no extension readable as text or it names no
    /// supported format.
    pub fn from_path(path: &PathBuf) -> (r: Option<Self>)
        ensures
            r == match path_extension_text(path) {
                Some(e) => format_of_extension(e),
                None => None,
            },
    {
        match path_extension(path) {
            Some(ext) => Self::from_extension(ext),
            None => None,
        }
    }
}

} // verus!
