use flate2::write::GzEncoder;
use flate2::Compression;
use nwc::nbt::{read_level_dat, validate_root};
use nwc::validate::{validate_region, validation_percent, validation_result, ExternalChunks};
use std::io::Write;

fn empty_compound() -> Vec<u8> {
    vec![0x0A, 0x00, 0x00, 0x00]
}

fn level_dat() -> Vec<u8> {
    let mut nbt = Vec::new();
    nbt.extend_from_slice(&[0x0A, 0x00, 0x00]);
    nbt.extend_from_slice(&[0x0A, 0x00, 0x04]);
    nbt.extend_from_slice(b"Data");
    nbt.extend_from_slice(&[0x03, 0x00, 0x0B]);
    nbt.extend_from_slice(b"DataVersion");
    nbt.extend_from_slice(&[0x00, 0x00, 0x01, 0x0A]);
    nbt.extend_from_slice(&[0x08, 0x00, 0x09]);
    nbt.extend_from_slice(b"LevelName");
    nbt.extend_from_slice(&[0x00, 0x03]);
    nbt.extend_from_slice(b"abc");
    nbt.extend_from_slice(&[0x0A, 0x00, 0x07]);
    nbt.extend_from_slice(b"Version");
    nbt.extend_from_slice(&[0x08, 0x00, 0x04]);
    nbt.extend_from_slice(b"Name");
    nbt.extend_from_slice(&[0x00, 0x04]);
    nbt.extend_from_slice(b"1.21");
    nbt.push(0x00);
    nbt.push(0x00);
    nbt.push(0x00);
    let mut encoder = GzEncoder::new(Vec::new(), Compression::default());
    encoder.write_all(&nbt).unwrap();
    encoder.finish().unwrap()
}

fn test_region() -> Vec<u8> {
    let nbt = empty_compound();
    let length = (nbt.len() + 1) as u32;
    let mut header = vec![0u8; 4096];
    header[0..3].copy_from_slice(&[0x00, 0x00, 0x02]);
    header[3] = 1;
    let mut data = vec![0u8; 4096];
    data[0..4].copy_from_slice(&length.to_be_bytes());
    data[4] = 3;
    data[5..5 + nbt.len()].copy_from_slice(&nbt);
    let mut region = Vec::new();
    region.extend_from_slice(&header);
    region.extend_from_slice(&vec![0u8; 4096]);
    region.extend_from_slice(&data);
    region
}

#[test]
fn validates_minimal_anvil_world() {
    let level = read_level_dat(&level_dat()).unwrap();
    let region = test_region();
    let chunks = validate_region("r.0.0.mca", &region, &ExternalChunks::Underivable).unwrap();
    let result = validation_result(1, chunks as i64, 2, 0, &level);
    assert_eq!(result.region_files, 1);
    assert_eq!(result.region_chunks, 1);
    assert_eq!(result.level_version, "1.21");
    assert_eq!(result.data_version, 266);
    assert_eq!(level.world_name, "abc");
}

#[test]
fn rejects_overlapping_sectors() {
    let mut bytes = test_region();
    let base = 4;
    bytes[base..base + 3].copy_from_slice(&[0x00, 0x00, 0x02]);
    bytes[base + 3] = 1;
    let err = validate_region("r.0.0.mca", &bytes, &ExternalChunks::Underivable).unwrap_err();
    assert_eq!(err.message, "区域文件 r.0.0.mca 第 1 项扇区重叠（扇区 2 被重复使用）");
}

#[test]
fn region_error_messages() {
    let err = validate_region("r.0.0.mca", &vec![0u8; 100], &ExternalChunks::Underivable).unwrap_err();
    assert_eq!(err.message, "区域文件 r.0.0.mca 大小非法（100 字节，应为 4096 的倍数且不小于 8192）");
    let mut bad = test_region();
    bad[0..4].copy_from_slice(&[0, 0, 1, 1]);
    let err = validate_region("r.0.0.mca", &bad, &ExternalChunks::Underivable).unwrap_err();
    assert_eq!(err.message, "区域文件 r.0.0.mca 位置表第 0 项非法（offset=1，sectors=1）");
    let mut outside = test_region();
    outside[0..4].copy_from_slice(&[0, 0, 2, 2]);
    let err = validate_region("r.0.0.mca", &outside, &ExternalChunks::Underivable).unwrap_err();
    assert_eq!(err.message, "区域文件 r.0.0.mca 第 0 项数据越界");
    let mut comp = test_region();
    comp[8192 + 4] = 9;
    let err = validate_region("r.0.0.mca", &comp, &ExternalChunks::Underivable).unwrap_err();
    assert_eq!(err.message, "区域文件 r.0.0.mca 第 0 项压缩类型非法（9）");
    let mut ext = test_region();
    ext[8192 + 4] = 0x83;
    let err = validate_region("r.0.0.mca", &ext, &ExternalChunks::Underivable).unwrap_err();
    assert_eq!(err.message, "区域文件 r.0.0.mca 第 0 项引用外部区块，但无法推导 .mcc 文件名");
    let err = validate_region("r.0.0.mca", &ext, &ExternalChunks::Missing("c.0.0.mcc".into())).unwrap_err();
    assert_eq!(err.message, "区域文件 r.0.0.mca 第 0 项外部区块文件缺失：c.0.0.mcc");
    let mut mcc = vec![0u8; 8192];
    mcc.extend_from_slice(&[0x0A, 0, 0, 0]);
    assert_eq!(validate_region("r.0.0.mca", &ext, &ExternalChunks::Present(mcc)).unwrap(), 1);
    let err = validate_region("r.0.0.mca", &ext, &ExternalChunks::Present(vec![1, 2])).unwrap_err();
    assert_eq!(err.message, "区域文件 r.0.0.mca 第 0 项外部区块为空");
    let mut broken = test_region();
    broken[8192 + 5] = 0x08;
    let err = validate_region("r.0.0.mca", &broken, &ExternalChunks::Underivable).unwrap_err();
    assert_eq!(err.message, "区域文件 r.0.0.mca 第 0 项 NBT 校验失败：NBT 根标签类型为 8，预期 Compound(10)");
}

#[test]
fn nbt_structure_errors() {
    assert!(validate_root(&empty_compound()).is_ok());
    assert_eq!(validate_root(&[0x0A, 0x00]).unwrap_err().message, "NBT 数据被截断");
    // a list of ends that is not empty
    let list = [0x0A, 0, 0, 0x09, 0, 1, b'x', 0, 0, 0, 0, 5, 0];
    assert_eq!(validate_root(&list).unwrap_err().message, "非空 NBT List 使用 TAG_End 类型");
    let negative = [0x0A, 0, 0, 0x07, 0, 1, b'x', 0xFF, 0xFF, 0xFF, 0xFF, 0];
    assert_eq!(validate_root(&negative).unwrap_err().message, "NBT 集合长度为负数：-1");
    let huge = [0x0A, 0, 0, 0x0C, 0, 1, b'x', 0x01, 0, 0, 1, 0];
    assert_eq!(validate_root(&huge).unwrap_err().message, "NBT 集合异常大：16777217 项");
    // exactly 128 MiB is allowed, and then the data runs out
    let limit = [0x0A, 0, 0, 0x0C, 0, 1, b'x', 0x01, 0, 0, 0, 0];
    assert_eq!(validate_root(&limit).unwrap_err().message, "NBT 数据被截断");
    let bad_tag = [0x0A, 0, 0, 0x0D, 0];
    assert_eq!(validate_root(&bad_tag).unwrap_err().message, "非法 NBT 标签类型：13");
    // nesting deeper than 512 levels
    let mut deep = vec![0x0A, 0, 0];
    for _ in 0..600 {
        deep.extend_from_slice(&[0x0A, 0, 0]);
    }
    assert_eq!(validate_root(&deep).unwrap_err().message, "NBT 嵌套超过 512 层");
}

#[test]
fn level_dat_without_data_compound_uses_root() {
    let mut nbt = vec![0x0A, 0x00, 0x00];
    nbt.extend_from_slice(&[0x04, 0x00, 0x0B]);
    nbt.extend_from_slice(b"DataVersion");
    nbt.extend_from_slice(&[0, 0, 0, 1, 0, 0, 0, 5]);
    nbt.push(0);
    let meta = nwc::nbt::level_metadata(&nbt).unwrap();
    assert_eq!(meta.data_version, 5);
    assert_eq!(meta.version_name, "");
    assert_eq!(meta.world_name, "");
    let err = nwc::nbt::read_level_dat(b"not gzip").unwrap_err();
    assert_eq!(err.message, "level.dat NBT 被截断");
    let other = nwc::nbt::level_metadata(&[0x08, 0, 0]).unwrap_err();
    assert_eq!(other.message, "level.dat 根标签类型为 8，预期 Compound(10)");
}

#[test]
fn validation_progress_and_level_version() {
    assert_eq!(validation_percent(0, 3), 88);
    assert_eq!(validation_percent(2, 3), 94);
    let meta = nwc::models::LevelMetadata { data_version: 3700, version_name: String::new(), world_name: "w".into() };
    assert_eq!(validation_result(1, 2, 3, 4, &meta).level_version, "DataVersion 3700");
}

fn region_with(compression: u8, stream: &[u8]) -> Vec<u8> {
    let length = (stream.len() + 1) as u32;
    let mut region = vec![0u8; 8192];
    region[0..4].copy_from_slice(&[0, 0, 2, 1]);
    let mut data = vec![0u8; 4096];
    data[0..4].copy_from_slice(&length.to_be_bytes());
    data[4] = compression;
    data[5..5 + stream.len()].copy_from_slice(stream);
    region.extend_from_slice(&data);
    region
}

#[test]
fn compressed_chunks_are_decoded() {
    let mut gz = GzEncoder::new(Vec::new(), Compression::default());
    gz.write_all(&empty_compound()).unwrap();
    let gz = gz.finish().unwrap();
    assert_eq!(validate_region("r.0.0.mca", &region_with(1, &gz), &ExternalChunks::Underivable).unwrap(), 1);
    let mut z = flate2::write::ZlibEncoder::new(Vec::new(), Compression::default());
    z.write_all(&empty_compound()).unwrap();
    let z = z.finish().unwrap();
    assert_eq!(validate_region("r.0.0.mca", &region_with(2, &z), &ExternalChunks::Underivable).unwrap(), 1);
    // a raw compound is not a zlib stream
    let err = validate_region("r.0.0.mca", &region_with(2, &empty_compound()), &ExternalChunks::Underivable).unwrap_err();
    assert!(err.message.starts_with("区域文件 r.0.0.mca 第 0 项 NBT 校验失败："));
    // the level.dat reader decompresses gzip
    let meta = read_level_dat(&level_dat()).unwrap();
    assert_eq!(meta.world_name, "abc");
}
