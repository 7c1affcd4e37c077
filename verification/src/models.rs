//! Data shared between the stages of a conversion, and the records handed to
//! the user interface. Paths are sequences of components (see `archive`).

use vstd::prelude::*;

verus! {

/// The kind of world found in an archive.
#[derive(Debug, Clone, Copy, PartialEq, Eq, Structural)]
pub enum WorldType {
    NeteaseBedrock,
    NeteaseBedrockLegacyAes,
    Bedrock,
    Java,
}

pub open spec fn display_name_of(t: WorldType) -> Seq<char> {
    match t {
        WorldType::NeteaseBedrock => "网易基岩版（可解密）"@,
        WorldType::NeteaseBedrockLegacyAes => "网易基岩版（旧 AES 加密）"@,
        WorldType::Bedrock => "标准基岩版"@,
        WorldType::Java => "Java 版（含网易 Java）"@,
    }
}

impl WorldType {
    /// The name shown to the user.
    pub fn display_name(&self) -> (r: &'static str)
        ensures
            r@ == display_name_of(*self),
    {
        match self {
            WorldType::NeteaseBedrock => "网易基岩版（可解密）",
            WorldType::NeteaseBedrockLegacyAes => "网易基岩版（旧 AES 加密）",
            WorldType::Bedrock => "标准基岩版",
            WorldType::Java => "Java 版（含网易 Java）",
        }
    }

    /// Every kind but Java is a Bedrock world.
    pub fn is_bedrock(&self) -> (r: bool)
        ensures
            r == (*self != WorldType::Java),
    {
        match self {
            WorldType::Java => false,
            _ => true,
        }
    }
}

/// What detection found: where the world is and what it is.
#[derive(Debug, Clone)]
pub struct WorldInfo {
    pub root: Vec<String>,
    pub database_directory: Option<Vec<String>>,
    pub world_type: WorldType,
    pub detected_version: String,
    pub world_name: String,
    pub file_count: u64,
    pub byte_count: u64,
    pub notes: Vec<String>,
}

/// A version the converter can produce, with its name in the backend.
#[derive(Debug, Clone)]
pub struct TargetVersion {
    pub display_name: String,
    pub chunker_format: String,
}

/// What a Java world's level.dat says about it.
#[derive(Debug, Clone)]
pub struct LevelMetadata {
    pub data_version: i32,
    pub version_name: String,
    pub world_name: String,
}

/// The statistics of a converted world that passed validation.
#[derive(Debug, Clone)]
pub struct ValidationResult {
    pub region_files: i64,
    pub region_chunks: i64,
    pub files: i64,
    pub bytes: i64,
    pub level_version: String,
    pub data_version: i32,
}

/// The answer to an analysis request.
#[derive(Debug, Clone)]
pub struct AnalysisDto {
    pub session_id: String,
    pub world_type_name: String,
    pub detected_version: String,
    pub world_name: String,
    pub file_count: u64,
    pub byte_count: u64,
    pub notes: Vec<String>,
    pub supported: bool,
    pub targets: Vec<TargetVersion>,
    pub source_version: String,
    pub error_report: Option<String>,
}

/// The answer to a conversion request.
#[derive(Debug, Clone)]
pub struct ConversionResultDto {
    pub result_zip: String,
    pub file_name: String,
    pub target_version: String,
    pub region_files: i64,
    pub region_chunks: i64,
    pub region_note: String,
}

/// Which external backends were found.
#[derive(Debug, Clone)]
pub struct BackendStatusDto {
    pub ok: bool,
    pub java: String,
    pub chunker: String,
    pub b2j: String,
    pub message: String,
}

/// A progress report of a session.
#[derive(Debug, Clone)]
pub struct ProgressPayload {
    pub session_id: String,
    pub percent: u32,
    pub stage: String,
    pub detail: String,
}

/// One log line of a session.
#[derive(Debug, Clone)]
pub struct LogPayload {
    pub session_id: String,
    pub line: String,
}

} // verus!
