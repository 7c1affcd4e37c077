//! Structural validation of the Anvil region files of a converted Java world.
//!
//! A region file is a 8 KiB header followed by 4 KiB sectors. The first
//! 4 KiB hold 1024 location entries: a 24-bit sector offset and an 8-bit
//! sector count. Every used entry must point inside the file, past the
//! header, without sharing a sector with another entry; its record holds a
//! length, a compression byte and a compressed NBT tree, or, with the high
//! bit of the compression byte set, a reference to a sibling `.mcc` file.

use crate::codec::{gunzip, inflate_zlib, spec_gunzip, spec_inflate_zlib};
use crate::error::{ConversionError, CODE_ERROR};
use crate::models::{LevelMetadata, ValidationResult};
use crate::nbt::{at_i32, read_i32, sp_root, validate_root};
use crate::archive::{last_index_of, parts};
use crate::detect::{npath, total_size, Node};
use crate::entity::{insert_path, insert_sorted, paths_of};
use crate::text::{
    chars_of, dec_int, dec_string, dec_string_u64, ends_with, has_suffix, push_str, spec_lowercase, str_eq, string_of,
    to_lowercase,
};
use vstd::prelude::*;

verus! {

/// What is known of the `.mcc` file that holds a region's external chunks.
pub enum ExternalChunks {
    /// The region file's name does not yield a `.mcc` name.
    Underivable,
    /// The `.mcc` file could not be opened; its path as displayed.
    Missing(String),
    /// The contents of the `.mcc` file.
    Present(Vec<u8>),
}

pub open spec fn at_u24(d: Seq<u8>, p: int) -> int {
    (d[p] * 256 + d[p + 1]) * 256 + d[p + 2]
}

// ----- messages -----

pub open spec fn entry_prefix(name: Seq<char>, index: int) -> Seq<char> {
    "区域文件 "@ + name + " 第 "@ + dec_int(index) + " 项"@
}

pub open spec fn size_msg(name: Seq<char>, size: int) -> Seq<char> {
    "区域文件 "@ + name + " 大小非法（"@ + dec_int(size) + " 字节，应为 4096 的倍数且不小于 8192）"@
}

pub open spec fn location_msg(name: Seq<char>, index: int, offset: int, sectors: int) -> Seq<char> {
    "区域文件 "@ + name + " 位置表第 "@ + dec_int(index) + " 项非法（offset="@ + dec_int(offset) + "，sectors="@
        + dec_int(sectors) + "）"@
}

pub open spec fn bounds_msg(name: Seq<char>, index: int) -> Seq<char> {
    entry_prefix(name, index) + "数据越界"@
}

pub open spec fn overlap_msg(name: Seq<char>, index: int, sector: int) -> Seq<char> {
    entry_prefix(name, index) + "扇区重叠（扇区 "@ + dec_int(sector) + " 被重复使用）"@
}

pub open spec fn length_msg(name: Seq<char>, index: int, length: int) -> Seq<char> {
    entry_prefix(name, index) + "记录长度非法（"@ + dec_int(length) + "）"@
}

pub open spec fn capacity_msg(name: Seq<char>, index: int) -> Seq<char> {
    entry_prefix(name, index) + "记录长度超过其扇区容量"@
}

pub open spec fn compression_msg(name: Seq<char>, index: int, c: int) -> Seq<char> {
    entry_prefix(name, index) + "压缩类型非法（"@ + dec_int(c) + "）"@
}

pub open spec fn nbt_msg(name: Seq<char>, index: int, inner: Seq<char>) -> Seq<char> {
    entry_prefix(name, index) + " NBT 校验失败："@ + inner
}

pub open spec fn underivable_msg(name: Seq<char>, index: int) -> Seq<char> {
    entry_prefix(name, index) + "引用外部区块，但无法推导 .mcc 文件名"@
}

pub open spec fn missing_msg(name: Seq<char>, index: int, path: Seq<char>) -> Seq<char> {
    entry_prefix(name, index) + "外部区块文件缺失："@ + path
}

pub open spec fn empty_external_msg(name: Seq<char>, index: int) -> Seq<char> {
    entry_prefix(name, index) + "外部区块为空"@
}

// ----- the rules -----

/// A chunk's compressed stream, decompressed by its compression type
/// (1 gzip, 2 zlib, 3 none).
pub open spec fn decoded(compression: int, stream: Seq<u8>) -> Seq<u8> {
    if compression == 1 {
        spec_gunzip(stream)
    } else if compression == 2 {
        spec_inflate_zlib(stream)
    } else {
        stream
    }
}

/// The chunk's stream must decode to a complete NBT tree.
#[verifier::opaque]
pub open spec fn chunk_nbt_ok(name: Seq<char>, index: int, compression: int, stream: Seq<u8>) -> Result<(), Seq<char>> {
    match sp_root(decoded(compression, stream), false) {
        Ok(_) => Ok(()),
        Err(m) => Err(nbt_msg(name, index, m)),
    }
}

/// An external chunk's payload lies in the `.mcc` file at the record's byte
/// offset, possibly preceded by its own compression byte.
#[verifier::opaque]
pub open spec fn external_ok(
    name: Seq<char>,
    index: int,
    ext: ExternalChunks,
    start: int,
    payload_length: int,
    compression: int,
) -> Result<(), Seq<char>> {
    match ext {
        ExternalChunks::Underivable => Err(underivable_msg(name, index)),
        ExternalChunks::Missing(p) => Err(missing_msg(name, index, p@)),
        ExternalChunks::Present(m) => {
            let lo = if start < m@.len() { start } else { m@.len() as int };
            let hi = if start + payload_length < m@.len() { start + payload_length } else { m@.len() as int };
            let s = m@.subrange(lo, hi);
            if s.len() == 0 {
                Err(empty_external_msg(name, index))
            } else if s[0] == compression {
                chunk_nbt_ok(name, index, compression, s.drop_first())
            } else {
                chunk_nbt_ok(name, index, compression, s)
            }
        },
    }
}

/// The record of entry `index`, whose sectors `offset .. offset + sectors`
/// lie inside the file.
#[verifier::opaque]
pub open spec fn record_ok(
    name: Seq<char>,
    d: Seq<u8>,
    ext: ExternalChunks,
    index: int,
    offset: int,
    sectors: int,
) -> Result<(), Seq<char>> {
    let start = offset * 4096;
    let length = at_i32(d, start);
    if length < 1 {
        Err(length_msg(name, index, length))
    } else if length + 4 > sectors * 4096 {
        Err(capacity_msg(name, index))
    } else {
        let b = d[start + 4] as int;
        let compression = b % 128;
        if !(1 <= compression <= 3) {
            Err(compression_msg(name, index, compression))
        } else if b >= 128 {
            external_ok(name, index, ext, start, length - 1, compression)
        } else {
            chunk_nbt_ok(name, index, compression, d.subrange(start + 5, start + 5 + length - 1))
        }
    }
}

/// The smallest sector in `lo .. hi` that is already used.
pub open spec fn first_used(used: Set<int>, lo: int, hi: int) -> Option<int>
    decreases hi - lo,
{
    if lo >= hi {
        None
    } else if used.contains(lo) {
        Some(lo)
    } else {
        first_used(used, lo + 1, hi)
    }
}

/// The sectors `lo .. hi`.
pub open spec fn sector_range(lo: int, hi: int) -> Set<int> {
    Set::new(|s: int| lo <= s < hi)
}

/// Entry `index` checked against the sectors already used: `None` when the
/// entry is empty, otherwise the sectors used once its record is accepted.
#[verifier::opaque]
pub open spec fn entry_step(
    name: Seq<char>,
    d: Seq<u8>,
    ext: ExternalChunks,
    index: int,
    used: Set<int>,
) -> Result<Option<Set<int>>, Seq<char>> {
    let offset = at_u24(d, 4 * index);
    let sectors = d[4 * index + 3] as int;
    if offset == 0 && sectors == 0 {
        Ok(None)
    } else if offset < 2 || sectors == 0 {
        Err(location_msg(name, index, offset, sectors))
    } else if (offset + sectors) * 4096 > d.len() {
        Err(bounds_msg(name, index))
    } else {
        match first_used(used, offset, offset + sectors) {
            Some(s) => Err(overlap_msg(name, index, s)),
            None => match record_ok(name, d, ext, index, offset, sectors) {
                Err(m) => Err(m),
                Ok(_) => Ok(Some(used + sector_range(offset, offset + sectors))),
            },
        }
    }
}

/// Entries `index ..` checked in order, given the sectors already used and
/// the records counted so far; the result is the number of records.
pub open spec fn entries_ok(
    name: Seq<char>,
    d: Seq<u8>,
    ext: ExternalChunks,
    index: int,
    used: Set<int>,
    count: int,
) -> Result<int, Seq<char>>
    decreases 1024 - index,
{
    if index >= 1024 {
        Ok(count)
    } else {
        match entry_step(name, d, ext, index, used) {
            Err(m) => Err(m),
            Ok(None) => entries_ok(name, d, ext, index + 1, used, count),
            Ok(Some(u)) => entries_ok(name, d, ext, index + 1, u, count + 1),
        }
    }
}

/// A region file: its size, then its 1024 entries; the result is the number
/// of chunk records.
pub open spec fn region_ok(name: Seq<char>, d: Seq<u8>, ext: ExternalChunks) -> Result<int, Seq<char>> {
    if d.len() < 8192 || d.len() % 4096 != 0 {
        Err(size_msg(name, d.len() as int))
    } else {
        entries_ok(name, d, ext, 0, sector_range(0, 2), 0)
    }
}

// ----- executable checks -----

fn prefix_string(name: &str, index: usize) -> (r: String)
    requires
        index < 1024,
    ensures
        r@ == entry_prefix(name@, index as int),
{
    let mut m = "区域文件 ".to_owned();
    push_str(&mut m, name);
    push_str(&mut m, " 第 ");
    let digits = dec_string(index as i64);
    push_str(&mut m, digits.as_str());
    push_str(&mut m, " 项");
    m
}

fn region_error(m: String) -> (e: ConversionError)
    ensures
        e.code@ == CODE_ERROR@,
        e.message == m,
{
    ConversionError::new(CODE_ERROR, m)
}

fn check_chunk_nbt(name: &str, index: usize, compression: u8, stream: &[u8]) -> (r: Result<(), String>)
    requires
        index < 1024,
    ensures
        match chunk_nbt_ok(name@, index as int, compression as int, stream@) {
            Ok(_) => r is Ok,
            Err(m) => r matches Err(x) && x@ == m,
        },
{
    reveal(chunk_nbt_ok);
    let result = if compression == 1 {
        let raw = gunzip(stream);
        validate_root(raw.as_slice())
    } else if compression == 2 {
        let raw = inflate_zlib(stream);
        validate_root(raw.as_slice())
    } else {
        validate_root(stream)
    };
    match result {
        Ok(()) => Ok(()),
        Err(e) => {
            let mut m = prefix_string(name, index);
            push_str(&mut m, " NBT 校验失败：");
            push_str(&mut m, e.message.as_str());
            Err(m)
        },
    }
}

fn check_external(
    name: &str,
    index: usize,
    ext: &ExternalChunks,
    start: usize,
    payload_length: usize,
    compression: u8,
) -> (r: Result<(), String>)
    requires
        index < 1024,
        start + payload_length <= usize::MAX,
    ensures
        match external_ok(name@, index as int, *ext, start as int, payload_length as int, compression as int) {
            Ok(_) => r is Ok,
            Err(m) => r matches Err(x) && x@ == m,
        },
{
    reveal(external_ok);
    match ext {
        ExternalChunks::Underivable => {
            let mut m = prefix_string(name, index);
            push_str(&mut m, "引用外部区块，但无法推导 .mcc 文件名");
            Err(m)
        },
        ExternalChunks::Missing(p) => {
            let mut m = prefix_string(name, index);
            push_str(&mut m, "外部区块文件缺失：");
            push_str(&mut m, p.as_str());
            Err(m)
        },
        ExternalChunks::Present(bytes) => {
            let len = bytes.len();
            let lo = if start < len { start } else { len };
            let hi = if start + payload_length < len { start + payload_length } else { len };
            let s = bytes.as_slice();
            if hi <= lo {
                let mut m = prefix_string(name, index);
                push_str(&mut m, "外部区块为空");
                return Err(m);
            }
            let whole = crate::nbt::copy_range(s, lo, hi);
            if s[lo] == compression {
                let rest = crate::nbt::copy_range(s, lo + 1, hi);
                assert(rest@ =~= whole@.drop_first());
                check_chunk_nbt(name, index, compression, rest.as_slice())
            } else {
                check_chunk_nbt(name, index, compression, whole.as_slice())
            }
        },
    }
}

fn check_record(
    name: &str,
    d: &[u8],
    ext: &ExternalChunks,
    index: usize,
    offset: usize,
    sectors: usize,
) -> (r: Result<(), String>)
    requires
        index < 1024,
        2 <= offset,
        1 <= sectors <= 255,
        (offset + sectors) * 4096 <= d@.len(),
        d@.len() <= usize::MAX,
    ensures
        match record_ok(name@, d@, *ext, index as int, offset as int, sectors as int) {
            Ok(_) => r is Ok,
            Err(m) => r matches Err(x) && x@ == m,
        },
{
    reveal(record_ok);
    let start = offset * 4096;
    let length = read_i32(d, start);
    if length < 1 {
        let mut m = prefix_string(name, index);
        push_str(&mut m, "记录长度非法（");
        let digits = dec_string(length as i64);
        push_str(&mut m, digits.as_str());
        push_str(&mut m, "）");
        return Err(m);
    }
    if length as usize + 4 > sectors * 4096 {
        let mut m = prefix_string(name, index);
        push_str(&mut m, "记录长度超过其扇区容量");
        return Err(m);
    }
    let b = d[start + 4];
    let compression: u8 = b % 128;
    if !(1 <= compression && compression <= 3) {
        let mut m = prefix_string(name, index);
        push_str(&mut m, "压缩类型非法（");
        let digits = dec_string(compression as i64);
        push_str(&mut m, digits.as_str());
        push_str(&mut m, "）");
        return Err(m);
    }
    let payload_length = length as usize - 1;
    if b >= 128 {
        check_external(name, index, ext, start, payload_length, compression)
    } else {
        let stream = crate::nbt::copy_range(d, start + 5, start + 5 + payload_length);
        check_chunk_nbt(name, index, compression, stream.as_slice())
    }
}

fn location_error(name: &str, index: usize, offset: usize, sectors: usize) -> (m: String)
    requires
        index < 1024,
        offset < 0x100_0000,
        sectors < 256,
    ensures
        m@ == location_msg(name@, index as int, offset as int, sectors as int),
{
    let mut m = "区域文件 ".to_owned();
    push_str(&mut m, name);
    push_str(&mut m, " 位置表第 ");
    let digits = dec_string(index as i64);
    push_str(&mut m, digits.as_str());
    push_str(&mut m, " 项非法（offset=");
    let digits = dec_string(offset as i64);
    push_str(&mut m, digits.as_str());
    push_str(&mut m, "，sectors=");
    let digits = dec_string(sectors as i64);
    push_str(&mut m, digits.as_str());
    push_str(&mut m, "）");
    m
}

fn first_used_sector(used: &Vec<bool>, offset: usize, sectors: usize, Ghost(used_set): Ghost<Set<int>>) -> (r: Option<usize>)
    requires
        offset + sectors <= used.len(),
        forall|j: int| 0 <= j < used@.len() ==> used@[j] == used_set.contains(j),
    ensures
        match r {
            Some(x) => first_used(used_set, offset as int, (offset + sectors) as int) == Some(x as int)
                && offset <= x < offset + sectors,
            None => first_used(used_set, offset as int, (offset + sectors) as int) is None,
        },
{
    let end = offset + sectors;
    let mut sector = offset;
    while sector < end
        invariant
            end == offset + sectors,
            offset <= sector <= offset + sectors <= used@.len(),
            forall|j: int| 0 <= j < used@.len() ==> used@[j] == used_set.contains(j),
            first_used(used_set, offset as int, (offset + sectors) as int)
                == first_used(used_set, sector as int, (offset + sectors) as int),
        decreases offset + sectors - sector,
    {
        if used[sector] {
            return Some(sector);
        }
        sector += 1;
    }
    None
}

fn mark_used(used: &mut Vec<bool>, offset: usize, sectors: usize)
    requires
        offset + sectors <= old(used).len(),
    ensures
        final(used)@.len() == old(used)@.len(),
        forall|j: int|
            0 <= j < old(used)@.len() ==> final(used)@[j] == (old(used)@[j] || (offset <= j < offset + sectors)),
{
    let end = offset + sectors;
    let mut s = offset;
    while s < end
        invariant
            end == offset + sectors,
            offset <= s <= offset + sectors <= used@.len(),
            used@.len() == old(used)@.len(),
            forall|j: int| 0 <= j < used@.len() ==> used@[j] == (old(used)@[j] || (offset <= j < s)),
        decreases offset + sectors - s,
    {
        used.set(s, true);
        s += 1;
    }
}

fn check_entry(
    name: &str,
    data: &[u8],
    ext: &ExternalChunks,
    index: usize,
    used: &mut Vec<bool>,
    Ghost(used_set): Ghost<Set<int>>,
) -> (r: Result<bool, String>)
    requires
        index < 1024,
        data@.len() >= 8192,
        data@.len() <= usize::MAX,
        old(used)@.len() * 4096 == data@.len(),
        forall|j: int| 0 <= j < old(used)@.len() ==> old(used)@[j] == used_set.contains(j),
    ensures
        final(used)@.len() == old(used)@.len(),
        match entry_step(name@, data@, *ext, index as int, used_set) {
            Err(m) => r matches Err(x) && x@ == m,
            Ok(None) => r == Ok::<bool, String>(false) && final(used)@ == old(used)@,
            Ok(Some(u)) => r == Ok::<bool, String>(true)
                && forall|j: int| 0 <= j < final(used)@.len() ==> final(used)@[j] == u.contains(j),
        },
{
    reveal(entry_step);
    let total_sectors = used.len();
    let base = index * 4;
    let offset: usize = (data[base] as usize * 256 + data[base + 1] as usize) * 256 + data[base + 2] as usize;
    let sectors: usize = data[base + 3] as usize;
    if offset == 0 && sectors == 0 {
        return Ok(false);
    }
    if offset < 2 || sectors == 0 {
        return Err(location_error(name, index, offset, sectors));
    }
    if offset + sectors > total_sectors {
        let mut m = prefix_string(name, index);
        push_str(&mut m, "数据越界");
        return Err(m);
    }
    match first_used_sector(used, offset, sectors, Ghost(used_set)) {
        Some(sector) => {
            let mut m = prefix_string(name, index);
            push_str(&mut m, "扇区重叠（扇区 ");
            let digits = dec_string(sector as i64);
            push_str(&mut m, digits.as_str());
            push_str(&mut m, " 被重复使用）");
            return Err(m);
        },
        None => {},
    }
    match check_record(name, data, ext, index, offset, sectors) {
        Err(m) => return Err(m),
        Ok(()) => {},
    }
    mark_used(used, offset, sectors);
    Ok(true)
}

/// Validates one region file. `name` is its file name, `data` its contents
/// and `ext` what is known of its `.mcc` sibling. Returns the number of
/// chunk records.
pub fn validate_region(name: &str, data: &[u8], ext: &ExternalChunks) -> (r: Result<usize, ConversionError>)
    ensures
        match region_ok(name@, data@, *ext) {
            Ok(n) => r matches Ok(k) && k as int == n,
            Err(m) => r matches Err(e) && e.code@ == CODE_ERROR@ && e.message@ == m,
        },
{
    let size = data.len();
    if size < 8192 || size % 4096 != 0 {
        let mut m = "区域文件 ".to_owned();
        push_str(&mut m, name);
        push_str(&mut m, " 大小非法（");
        let digits = dec_string_u64(size as u64);
        push_str(&mut m, digits.as_str());
        push_str(&mut m, " 字节，应为 4096 的倍数且不小于 8192）");
        return Err(region_error(m));
    }
    let total_sectors = size / 4096;
    let mut used: Vec<bool> = Vec::new();
    let mut k: usize = 0;
    while k < total_sectors
        invariant
            k <= total_sectors,
            used@.len() == k,
            forall|j: int| 0 <= j < k ==> used@[j] == (j < 2),
        decreases total_sectors - k,
    {
        used.push(k < 2);
        k += 1;
    }
    let ghost mut used_set: Set<int> = sector_range(0, 2);
    let mut count: usize = 0;
    let mut index: usize = 0;
    while index < 1024
        invariant
            size == data@.len(),
            size >= 8192,
            size <= usize::MAX,
            used@.len() * 4096 == size,
            index <= 1024,
            count <= index,
            forall|j: int| 0 <= j < used@.len() ==> used@[j] == used_set.contains(j),
            entries_ok(name@, data@, *ext, 0, sector_range(0, 2), 0)
                == entries_ok(name@, data@, *ext, index as int, used_set, count as int),
        decreases 1024 - index,
    {
        let ghost step = entry_step(name@, data@, *ext, index as int, used_set);
        match check_entry(name, data, ext, index, &mut used, Ghost(used_set)) {
            Err(m) => return Err(region_error(m)),
            Ok(counted) => {
                proof {
                    if let Ok(Some(u)) = step {
                        used_set = u;
                    }
                }
                if counted {
                    count += 1;
                }
            },
        }
        index += 1;
    }
    Ok(count)
}

/// Progress while region `index` of `total` is checked: 85 to 94 percent.
pub fn validation_percent(index: usize, total: usize) -> (r: i32)
    requires
        index < total,
        total <= 0x1000_0000,
    ensures
        r as int == 85 + 9 * (index as int + 1) / (total as int),
{
    let step: i64 = 9 * (index as i64 + 1) / total as i64;
    assert(9 * (index as int + 1) / (total as int) <= 9) by (nonlinear_arith)
        requires
            index < total,
            0 < total,
    {
        assert(9 * (index as int + 1) <= 9 * total);
    }
    (85 + step) as i32
}

pub open spec fn level_version_of(data_version: i32, version_name: Seq<char>) -> Seq<char> {
    if version_name.len() == 0 {
        "DataVersion "@ + dec_int(data_version as int)
    } else {
        version_name
    }
}

/// The statistics of a validated world. The version shown is the level's
/// `Version.Name`, or its DataVersion when the name is empty.
pub fn validation_result(region_files: i64, region_chunks: i64, files: i64, bytes: i64, level: &LevelMetadata) -> (r: ValidationResult)
    ensures
        r.region_files == region_files,
        r.region_chunks == region_chunks,
        r.files == files,
        r.bytes == bytes,
        r.data_version == level.data_version,
        r.level_version@ == level_version_of(level.data_version, level.version_name@),
{
    let level_version = if level.version_name.as_str().is_empty() {
        let mut m = "DataVersion ".to_owned();
        let digits = dec_string(level.data_version as i64);
        push_str(&mut m, digits.as_str());
        m
    } else {
        level.version_name.clone()
    };
    ValidationResult { region_files, region_chunks, files, bytes, level_version, data_version: level.data_version }
}


// ----- the world around the regions -----

/// The name of the `.mcc` file beside a region file: `r.X.Z.mca` (any case
/// of `.mca`, `r` or `R`) gives `c.X.Z.mcc`.
pub open spec fn mcc_name_of(name: Seq<char>) -> Option<Seq<char>> {
    if !has_suffix(spec_lowercase(name), ".mca"@) || name.len() < 4 {
        None
    } else {
        let stem = name.take(name.len() - 4);
        if stem.len() > 0 && (stem[0] == 'r' || stem[0] == 'R') {
            let rest = stem.drop_first();
            if rest.len() > 0 && rest[0] == '.' && rest.drop_first().contains('.') {
                Some(seq!['c'] + rest + ".mcc"@)
            } else {
                None
            }
        } else {
            None
        }
    }
}

/// The name of the `.mcc` file beside a region file (see `mcc_name_of`).
pub fn mcc_name(name: &str) -> (r: Option<String>)
    ensures
        match mcc_name_of(name@) {
            Some(m) => r matches Some(s) && s@ == m,
            None => r is None,
        },
{
    let lower = to_lowercase(name);
    if !ends_with(lower.as_str(), ".mca") {
        return None;
    }
    let v = chars_of(name);
    if v.len() < 4 {
        return None;
    }
    let stem_len = v.len() - 4;
    if stem_len == 0 || (v[0] != 'r' && v[0] != 'R') {
        return None;
    }
    if stem_len < 2 || v[1] != '.' {
        return None;
    }
    let mut found = false;
    let mut k: usize = 2;
    while k < stem_len
        invariant
            2 <= k <= stem_len,
            stem_len + 4 == v@.len(),
            v@ == name@,
            found == exists|j: int| 2 <= j < k && v@[j] == '.',
        decreases stem_len - k,
    {
        if v[k] == '.' {
            found = true;
        }
        k += 1;
    }
    let ghost stem = name@.take(stem_len as int);
    let ghost rest = stem.drop_first();
    proof {
        if found {
            let j = choose|j: int| 2 <= j < stem_len && v@[j] == '.';
            assert(rest.drop_first()[j - 2] == '.');
        }
        if rest.drop_first().contains('.') {
            let j = choose|j: int| 0 <= j < rest.drop_first().len() && rest.drop_first()[j] == '.';
            assert(v@[j + 2] == '.');
        }
    }
    if !found {
        return None;
    }
    let mut out: Vec<char> = Vec::new();
    out.push('c');
    let mut i: usize = 1;
    while i < stem_len
        invariant
            1 <= i <= stem_len,
            stem_len + 4 == v@.len(),
            v@ == name@,
            out@ == seq!['c'] + name@.subrange(1, i as int),
        decreases stem_len - i,
    {
        out.push(v[i]);
        assert(name@.subrange(1, i + 1) =~= name@.subrange(1, i as int).push(name@[i as int]));
        i += 1;
    }
    assert(name@.subrange(1, stem_len as int) =~= rest);
    let mut r = string_of(&out);
    push_str(&mut r, ".mcc");
    Some(r)
}

/// The top-level directory of the output that validation leaves out.
pub open spec fn preserved_top(p: Seq<Seq<char>>) -> bool {
    p.len() > 0 && p[0] == "_NWC_preserved_source"@
}

/// The extension of a file name: what follows its last `.`, when that is
/// not its first character.
pub open spec fn extension_of(name: Seq<char>) -> Option<Seq<char>> {
    match last_index_of(name, '.') {
        Some(dot) => if dot > 0 { Some(name.skip(dot + 1)) } else { None },
        None => None,
    }
}

/// A region file of the output: a non-empty file with the extension `mca`
/// (in any case), outside `_NWC_preserved_source`.
pub open spec fn is_region_node(n: Node) -> bool {
    &&& n.is_file
    &&& !preserved_top(npath(n))
    &&& npath(n).len() > 0
    &&& extension_of(npath(n).last()) matches Some(e) && spec_lowercase(e) == "mca"@
    &&& n.size != 0
}

/// The region files of the output, sorted by path.
pub open spec fn regions_of(nodes: Seq<Node>) -> Seq<Seq<Seq<char>>>
    decreases nodes.len(),
{
    if nodes.len() == 0 {
        Seq::empty()
    } else {
        let r = regions_of(nodes.drop_last());
        if is_region_node(nodes.last()) {
            insert_path(r, npath(nodes.last()))
        } else {
            r
        }
    }
}

fn region_node(n: &Node) -> (r: bool)
    ensures
        r == is_region_node(*n),
{
    if !n.is_file || n.size == 0 || n.path.len() == 0 {
        return false;
    }
    if str_eq(n.path[0].as_str(), "_NWC_preserved_source") {
        return false;
    }
    let last = n.path[n.path.len() - 1].as_str();
    assert(npath(*n).last() == last@);
    let v = chars_of(last);
    let mut dot: Option<usize> = None;
    let mut i: usize = 0;
    assert(last_index_of(v@.take(0), '.') is None);
    while i < v.len()
        invariant
            i <= v@.len(),
            v@ == last@,
            dot == match last_index_of(v@.take(i as int), '.') {
                Some(d) => Some(d as usize),
                None => None::<usize>,
            },
            last_index_of(v@.take(i as int), '.') matches Some(d) ==> 0 <= d < i,
        decreases v@.len() - i,
    {
        assert(v@.take(i + 1).drop_last() =~= v@.take(i as int));
        if v[i] == '.' {
            dot = Some(i);
        }
        i += 1;
    }
    assert(v@.take(v@.len() as int) =~= v@);
    match dot {
        Some(d) => {
            if d == 0 {
                return false;
            }
            let mut e: Vec<char> = Vec::new();
            let mut k = d + 1;
            while k < v.len()
                invariant
                    d + 1 <= k <= v@.len(),
                    e@ == v@.subrange(d + 1, k as int),
                decreases v@.len() - k,
            {
                e.push(v[k]);
                assert(v@.subrange(d + 1, k + 1) =~= v@.subrange(d + 1, k as int).push(v@[k as int]));
                k += 1;
            }
            assert(e@ =~= v@.skip(d + 1));
            let lower = to_lowercase(string_of(&e).as_str());
            str_eq(lower.as_str(), "mca")
        },
        None => false,
    }
}

/// The region files of the output, sorted by path (see `regions_of`); an
/// output without any fails.
pub fn select_regions(nodes: &Vec<Node>) -> (r: Result<Vec<Vec<String>>, ConversionError>)
    ensures
        regions_of(nodes@).len() == 0 ==> (r matches Err(e) && e.code@ == CODE_ERROR@ && e.message@
            == "输出世界没有任何 .mca 区域文件"@),
        regions_of(nodes@).len() > 0 ==> (r matches Ok(v) && paths_of(v@) == regions_of(nodes@)),
{
    let mut out: Vec<Vec<String>> = Vec::new();
    let mut i: usize = 0;
    while i < nodes.len()
        invariant
            i <= nodes@.len(),
            paths_of(out@) == regions_of(nodes@.take(i as int)),
        decreases nodes@.len() - i,
    {
        let n = &nodes[i];
        assert(nodes@.take(i + 1).drop_last() =~= nodes@.take(i as int));
        assert(nodes@.take(i + 1).last() == nodes@[i as int]);
        if region_node(n) {
            let mut fresh = Vec::new();
            let mut k: usize = 0;
            while k < n.path.len()
                invariant
                    k <= n.path@.len(),
                    parts(fresh@) == parts(n.path@).take(k as int),
                decreases n.path@.len() - k,
            {
                let ghost b = fresh@;
                fresh.push(string_of(&chars_of(n.path[k].as_str())));
                assert(parts(fresh@) =~= parts(b).push(n.path@[k as int]@));
                assert(parts(n.path@).take(k + 1) =~= parts(n.path@).take(k as int).push(n.path@[k as int]@));
                k += 1;
            }
            assert(parts(n.path@).take(n.path@.len() as int) =~= parts(n.path@));
            insert_sorted(&mut out, fresh);
        }
        i += 1;
    }
    assert(nodes@.take(nodes@.len() as int) =~= nodes@);
    if out.len() == 0 {
        return Err(ConversionError::new(CODE_ERROR, "输出世界没有任何 .mca 区域文件".to_owned()));
    }
    Ok(out)
}

/// The files of the output outside `_NWC_preserved_source`, and their bytes.
pub open spec fn output_totals(nodes: Seq<Node>) -> (int, int)
    decreases nodes.len(),
{
    if nodes.len() == 0 {
        (0, 0)
    } else {
        let t = output_totals(nodes.drop_last());
        let n = nodes.last();
        if n.is_file && !preserved_top(npath(n)) {
            (t.0 + 1, t.1 + n.size)
        } else {
            t
        }
    }
}

/// Counts the files of the output and their bytes (see `output_totals`).
pub fn count_output(nodes: &Vec<Node>) -> (r: (i64, i64))
    requires
        total_size(nodes@) <= i64::MAX,
        nodes@.len() <= i64::MAX,
    ensures
        r.0 as int == output_totals(nodes@).0,
        r.1 as int == output_totals(nodes@).1,
{
    let mut files: i64 = 0;
    let mut bytes: i64 = 0;
    let mut i: usize = 0;
    while i < nodes.len()
        invariant
            i <= nodes@.len(),
            nodes@.len() <= i64::MAX,
            total_size(nodes@) <= i64::MAX,
            0 <= files <= i,
            0 <= bytes <= total_size(nodes@.take(i as int)),
            files as int == output_totals(nodes@.take(i as int)).0,
            bytes as int == output_totals(nodes@.take(i as int)).1,
        decreases nodes@.len() - i,
    {
        let n = &nodes[i];
        assert(nodes@.take(i + 1).drop_last() =~= nodes@.take(i as int));
        assert(nodes@.take(i + 1).last() == nodes@[i as int]);
        proof {
            lemma_total_prefix_le(nodes@, i + 1);
        }
        let top = n.path.len() > 0 && str_eq(n.path[0].as_str(), "_NWC_preserved_source");
        if n.is_file && !top {
            files += 1;
            bytes += n.size as i64;
        }
        i += 1;
    }
    assert(nodes@.take(nodes@.len() as int) =~= nodes@);
    (files, bytes)
}

proof fn lemma_total_prefix_le(s: Seq<Node>, k: int)
    requires
        0 <= k <= s.len(),
    ensures
        total_size(s.take(k)) <= total_size(s),
        total_size(s.take(k)) >= 0,
    decreases s.len() - k,
{
    if k < s.len() {
        lemma_total_prefix_le(s, k + 1);
        assert(s.take(k + 1).drop_last() =~= s.take(k));
    } else {
        assert(s.take(k) =~= s);
    }
    lemma_total_nonneg(s.take(k));
}

proof fn lemma_total_nonneg(s: Seq<Node>)
    ensures
        total_size(s) >= 0,
    decreases s.len(),
{
    if s.len() > 0 {
        lemma_total_nonneg(s.drop_last());
    }
}

/// The failure when the output's `level.dat` cannot be read.
pub fn output_level_error(e: &ConversionError) -> (r: ConversionError)
    ensures
        r.code@ == CODE_ERROR@,
        r.message@ == "输出 level.dat 无法解析："@ + e.message@,
{
    let mut m = "输出 level.dat 无法解析：".to_owned();
    push_str(&mut m, e.message.as_str());
    ConversionError::new(CODE_ERROR, m)
}

// ----- laws -----

/// The sectors that entry `i` of the location table claims.
pub open spec fn claimed(d: Seq<u8>, i: int) -> Set<int> {
    sector_range(at_u24(d, 4 * i), at_u24(d, 4 * i) + d[4 * i + 3] as int)
}

/// Entry `i` of the location table points at a record.
pub open spec fn entry_used(d: Seq<u8>, i: int) -> bool {
    !(at_u24(d, 4 * i) == 0 && d[4 * i + 3] == 0)
}

/// Entry `i` points past the header, at one sector or more, inside the file.
pub open spec fn entry_in_bounds(d: Seq<u8>, i: int) -> bool {
    at_u24(d, 4 * i) >= 2 && d[4 * i + 3] > 0 && (at_u24(d, 4 * i) + d[4 * i + 3] as int) * 4096 <= d.len()
}

proof fn lemma_first_used_none(used: Set<int>, lo: int, hi: int)
    requires
        first_used(used, lo, hi) is None,
    ensures
        forall|x: int| lo <= x < hi ==> !used.contains(x),
    decreases hi - lo,
{
    if lo < hi {
        lemma_first_used_none(used, lo + 1, hi);
    }
}

proof fn lemma_entries_sound(name: Seq<char>, d: Seq<u8>, ext: ExternalChunks, index: int, used: Set<int>, count: int)
    requires
        0 <= index <= 1024,
        d.len() >= 8192,
        entries_ok(name, d, ext, index, used, count) is Ok,
    ensures
        forall|i: int| index <= i < 1024 && #[trigger] entry_used(d, i) ==> entry_in_bounds(d, i) && claimed(d, i).disjoint(
            used,
        ),
        forall|i: int, j: int|
            index <= i < j < 1024 && entry_used(d, i) && entry_used(d, j) ==> (#[trigger] claimed(d, i)).disjoint(
                #[trigger] claimed(d, j),
            ),
    decreases 1024 - index,
{
    if index < 1024 {
        reveal(entry_step);
        let offset = at_u24(d, 4 * index);
        let sectors = d[4 * index + 3] as int;
        match entry_step(name, d, ext, index, used) {
            Err(_) => {},
            Ok(None) => {
                lemma_entries_sound(name, d, ext, index + 1, used, count);
                assert(!entry_used(d, index));
            },
            Ok(Some(u)) => {
                lemma_entries_sound(name, d, ext, index + 1, u, count + 1);
                lemma_first_used_none(used, offset, offset + sectors);
                assert(claimed(d, index).disjoint(used));
                assert(u == used + claimed(d, index));
                assert(entry_in_bounds(d, index));
                assert forall|i: int| index <= i < 1024 && #[trigger] entry_used(d, i) implies entry_in_bounds(d, i)
                    && claimed(d, i).disjoint(used) by {
                    if i > index {
                        assert(claimed(d, i).disjoint(u));
                        assert forall|x: int| claimed(d, i).contains(x) implies !used.contains(x) by {
                            assert(!u.contains(x));
                        }
                    }
                }
                assert forall|j: int| index < j < 1024 && entry_used(d, j) implies (#[trigger] claimed(d, index)).disjoint(
                    #[trigger] claimed(d, j),
                ) by {
                    assert(claimed(d, j).disjoint(u));
                }
            },
        }
    }
}

/// A region file that passes validation has a sound location table: every
/// used entry points past the two header sectors at one sector or more
/// inside the file, and no two entries claim the same sector.
pub proof fn law_accepted_region_sound(name: Seq<char>, d: Seq<u8>, ext: ExternalChunks)
    requires
        region_ok(name, d, ext) is Ok,
    ensures
        forall|i: int| 0 <= i < 1024 && entry_used(d, i) ==> entry_in_bounds(d, i),
        forall|i: int, j: int|
            0 <= i < j < 1024 && entry_used(d, i) && entry_used(d, j) ==> (#[trigger] claimed(d, i)).disjoint(
                #[trigger] claimed(d, j),
            ),
{
    lemma_entries_sound(name, d, ext, 0, sector_range(0, 2), 0);
}


/// A chunk record is refused for its length only when it does not fit its
/// sectors: a record whose 4-byte length field plus length exceeds
/// `sectors * 4096` is refused with the capacity message, and a record of any
/// length that fits, stored inline with compression 1, 2 or 3 and holding a
/// complete NBT tree, is accepted whatever the number of its sectors.
pub proof fn law_record_capacity(
    name: Seq<char>,
    d: Seq<u8>,
    ext: ExternalChunks,
    index: int,
    offset: int,
    sectors: int,
)
    requires
        offset >= 2,
        sectors >= 1,
        (offset + sectors) * 4096 <= d.len(),
    ensures
        ({
            let start = offset * 4096;
            let length = at_i32(d, start);
            &&& (length >= 1 && length + 4 > sectors * 4096) ==> record_ok(name, d, ext, index, offset, sectors) == Err::<
                (),
                Seq<char>,
            >(capacity_msg(name, index))
            &&& (1 <= length && length + 4 <= sectors * 4096 && 1 <= d[start + 4] <= 3 && sp_root(
                decoded(d[start + 4] as int, d.subrange(start + 5, start + 4 + length)),
                false,
            ) is Ok) ==> record_ok(name, d, ext, index, offset, sectors) == Ok::<(), Seq<char>>(())
        }),
{
    reveal(record_ok);
    reveal(chunk_nbt_ok);
    let start = offset * 4096;
    let length = at_i32(d, start);
    assert(start + 5 + length - 1 == start + 4 + length);
}

} // verus!
