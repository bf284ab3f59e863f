use receipt::audio_processing::{
    check_compressed_size, ffmpeg_args, upload_plan, StillTooLarge, UploadPlan,
    COMPRESS_ABOVE_BYTES, SIZE_LIMIT_BYTES,
};
use receipt::whisper_cache::{cache_file_name, encode_short, hash_bytes};

#[test]
fn hex_is_lower_case_two_digits_per_byte() {
    assert_eq!(encode_short(&[0x00, 0xff, 0x1a, 0xB0]), "00ff1ab0");
    assert_eq!(encode_short(&[]), "");
}

#[test]
fn cache_key_is_sha256_hex() {
    assert_eq!(
        hash_bytes(b""),
        "e3b0c44298fc1c149afbf4c8996fb92427ae41e4649b934ca495991b7852b855"
    );
    assert_eq!(
        hash_bytes(b"abc"),
        "ba7816bf8f01cfea414140de5dae2223b00361a396177a9cb410ff61f20015ad"
    );
    assert_eq!(cache_file_name("abc"), "abc.json");
}

#[test]
fn large_files_are_compressed_first() {
    assert_eq!(upload_plan(0), UploadPlan::AsIs);
    assert_eq!(upload_plan(24 * 1024 * 1024), UploadPlan::AsIs);
    assert_eq!(upload_plan(24 * 1024 * 1024 + 1), UploadPlan::Compress);
    assert_eq!(COMPRESS_ABOVE_BYTES, 25_165_824);
    assert_eq!(check_compressed_size(SIZE_LIMIT_BYTES), Ok(()));
    assert_eq!(
        check_compressed_size(SIZE_LIMIT_BYTES + 1),
        Err(StillTooLarge { size: 26_214_401 })
    );
}

#[test]
fn ffmpeg_command_line() {
    let args = ffmpeg_args("/in/a b.wav", "/tmp/out.mp3");
    assert_eq!(
        args,
        vec![
            "-hide_banner", "-loglevel", "error", "-y", "-i", "/in/a b.wav", "-vn", "-c:a",
            "libmp3lame", "-b:a", "32k", "-ac", "1", "-ar", "16000", "/tmp/out.mp3",
        ]
    );
}
