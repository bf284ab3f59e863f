//! Getting an audio file into a shape the speech-recognition API accepts.
//! The API caps uploads at 25 MiB; larger files are re-encoded with ffmpeg to
//! 32 kbps mono 16 kHz MP3 before upload. The library decides when to
//! re-encode, whether the result is small enough, and what ffmpeg is told.

use vstd::prelude::*;

verus! {

/// The API's upload limit: 25 MiB.
pub const SIZE_LIMIT_BYTES: u64 = 25 * 1024 * 1024;

/// Files above 24 MiB are re-encoded before upload.
pub const COMPRESS_ABOVE_BYTES: u64 = 24 * 1024 * 1024;

/// How a file of a given size is uploaded.
#[derive(Debug, Clone, Copy, PartialEq, Eq)]
pub enum UploadPlan {
    /// Upload the file as it is.
    AsIs,
    /// Re-encode it first.
    Compress,
}

/// Files of at most 24 MiB go as they are; larger ones are re-encoded.
pub fn upload_plan(size: u64) -> (p: UploadPlan)
    ensures
        p == (if size <= COMPRESS_ABOVE_BYTES {
            UploadPlan::AsIs
        } else {
            UploadPlan::Compress
        }),
{
    if size <= COMPRESS_ABOVE_BYTES {
        UploadPlan::AsIs
    } else {
        UploadPlan::Compress
    }
}

/// A re-encoded file that is still over the upload limit.
#[derive(Debug, Clone, Copy, PartialEq, Eq)]
pub struct StillTooLarge {
    pub size: u64,
}

/// The re-encoded file can be uploaded only if it is within the limit.
pub fn check_compressed_size(size: u64) -> (r: Result<(), StillTooLarge>)
    ensures
        r is Ok <==> size <= SIZE_LIMIT_BYTES,
        r matches Err(e) ==> e.size == size,
{
    if size > SIZE_LIMIT_BYTES {
        return Err(StillTooLarge { size });
    }
    Ok(())
}

/// The texts of a sequence of strings.
pub open spec fn string_texts(v: Seq<String>) -> Seq<Seq<char>> {
    v.map_values(|s: String| s@)
}

/// ffmpeg's arguments: quiet, overwrite, read `input`, drop video, encode
/// 32 kbps mono 16 kHz MP3 into `output`.
pub open spec fn ffmpeg_arg_texts(input: Seq<char>, output: Seq<char>) -> Seq<Seq<char>> {
    seq![
        "-hide_banner"@,
        "-loglevel"@,
        "error"@,
        "-y"@,
        "-i"@,
        input,
        "-vn"@,
        "-c:a"@,
        "libmp3lame"@,
        "-b:a"@,
        "32k"@,
        "-ac"@,
        "1"@,
        "-ar"@,
        "16000"@,
        output,
    ]
}

/// The ffmpeg command line that re-encodes `input` into `output`.
pub fn ffmpeg_args(input: &str, output: &str) -> (args: Vec<String>)
    ensures
        string_texts(args@) == ffmpeg_arg_texts(input@, output@),
{
    let mut v: Vec<String> = Vec::new();
    v.push("-hide_banner".to_owned());
    v.push("-loglevel".to_owned());
    v.push("error".to_owned());
    v.push("-y".to_owned());
    v.push("-i".to_owned());
    v.push(input.to_owned());
    v.push("-vn".to_owned());
    v.push("-c:a".to_owned());
    v.push("libmp3lame".to_owned());
    v.push("-b:a".to_owned());
    v.push("32k".to_owned());
    v.push("-ac".to_owned());
    v.push("1".to_owned());
    v.push("-ar".to_owned());
    v.push("16000".to_owned());
    v.push(output.to_owned());
    assert(string_texts(v@) =~= ffmpeg_arg_texts(input@, output@));
    v
}

} // verus!
