//! The tool's configuration: the object-store connection and the
//! recognizer settings.  Loading and saving these from disk belongs
//! to the shell; the types here are the plain values the verified
//! logic works with.

use vstd::prelude::*;

verus! {

use vstd::string::StringExecFns;

/// Connection settings for the S3-compatible object store.
pub struct MinioConfig {
    pub url: String,
    pub access_key: String,
    pub secret_key: String,
    pub bucket: String,
    pub region: String,
}

impl Default for MinioConfig {
    fn default() -> (r: Self)
        ensures
            r.url@ == Seq::<char>::empty(),
            r.access_key@ == Seq::<char>::empty(),
            r.secret_key@ == Seq::<char>::empty(),
            r.bucket@ == Seq::<char>::empty(),
            r.region@ == Seq::<char>::empty(),
    {
        MinioConfig {
            url: String::new(),
            access_key: String::new(),
            secret_key: String::new(),
            bucket: String::new(),
            region: String::new(),
        }
    }
}

/// Recognizer settings: tool locations, the output directory, and the
/// two output-formatting flags.
pub struct WhisperConfig {
    pub binary_path: String,
    pub ffmpeg_path: String,
    pub model_path: String,
    pub output_dir: String,
    pub include_timestamps: bool,
    pub include_speaker: bool,
}

impl Default for WhisperConfig {
    fn default() -> (r: Self)
        ensures
            r.binary_path@ == Seq::<char>::empty(),
            r.ffmpeg_path@ == Seq::<char>::empty(),
            r.model_path@ == Seq::<char>::empty(),
            r.output_dir@ == Seq::<char>::empty(),
            r.include_timestamps == false,
            r.include_speaker == true,
    {
        WhisperConfig {
            binary_path: String::new(),
            ffmpeg_path: String::new(),
            model_path: String::new(),
            output_dir: String::new(),
            include_timestamps: false,
            include_speaker: true,
        }
    }
}

pub struct AppConfig {
    pub minio: MinioConfig,
    pub whisper: WhisperConfig,
}

impl Default for AppConfig {
    fn default() -> (r: Self)
        ensures
            r.minio.url@ == Seq::<char>::empty(),
            r.minio.access_key@ == Seq::<char>::empty(),
            r.minio.secret_key@ == Seq::<char>::empty(),
            r.minio.bucket@ == Seq::<char>::empty(),
            r.minio.region@ == Seq::<char>::empty(),
            r.whisper.binary_path@ == Seq::<char>::empty(),
            r.whisper.ffmpeg_path@ == Seq::<char>::empty(),
            r.whisper.model_path@ == Seq::<char>::empty(),
            r.whisper.output_dir@ == Seq::<char>::empty(),
            r.whisper.include_timestamps == false,
            r.whisper.include_speaker == true,
    {
        AppConfig { minio: Default::default(), whisper: Default::default() }
    }
}

/// A store connection can be attempted only with an endpoint, both
/// credentials, and a bucket.
pub fn validate_minio(c: &MinioConfig) -> (r: Result<(), String>)
    ensures
        r is Ok <==> c.url@.len() > 0 && c.access_key@.len() > 0 && c.secret_key@.len() > 0
            && c.bucket@.len() > 0,
        r matches Err(m) ==> m@ == "MinIO config is incomplete"@,
{
    if c.url.as_str().unicode_len() == 0 || c.access_key.as_str().unicode_len() == 0
        || c.secret_key.as_str().unicode_len() == 0 || c.bucket.as_str().unicode_len() == 0 {
        Err("MinIO config is incomplete".to_owned())
    } else {
        Ok(())
    }
}

/// The region the store client is built with: the configured one, or
/// the conventional default when none is set.
pub fn effective_region(c: &MinioConfig) -> (r: String)
    ensures
        c.region@.len() == 0 ==> r@ == "us-east-1"@,
        c.region@.len() > 0 ==> r@ == c.region@,
{
    if c.region.as_str().unicode_len() == 0 {
        "us-east-1".to_owned()
    } else {
        c.region.clone()
    }
}

} // verus!
