//! A small NBT reader: the level.dat metadata of a Java world, and the
//! structural check of a chunk's NBT tree.
//!
//! The format is big-endian. A named tag is a type byte, a 16-bit length and
//! that many name bytes, then the payload. Nesting is limited to 512 levels
//! and a collection to 128 MiB of elements.

use crate::codec::{gunzip, spec_gunzip};
use crate::error::{ConversionError, CODE_ERROR};
use crate::models::LevelMetadata;

use crate::text::{dec_int, dec_string, push_str, spec_utf8_lossy, str_eq, utf8_lossy};
use vstd::prelude::*;

verus! {

/// Deepest nesting level that is accepted.
pub const MAX_DEPTH: usize = 512;

/// Largest collection, counted in bytes of its elements.
pub const MAX_COLLECTION_LENGTH: i64 = 134217728;

/// Largest byte array that the collecting reader keeps.
pub const MAX_KEPT_BYTES: i64 = 1048576;

/// An NBT value as the reader sees it. Lists and compounds are kept only by
/// the collecting reader; otherwise they, and large byte arrays, are `Skipped`.
pub enum Nbt {
    Number(int),
    Float32(u32),
    Float64(u64),
    Bytes(Seq<u8>),
    Str(Seq<char>),
    List(Seq<Nbt>),
    Compound(Seq<(Seq<char>, Nbt)>),
    Skipped,
}

// ----- reading fixed-width big-endian numbers -----

pub open spec fn at_u16(d: Seq<u8>, p: int) -> int {
    d[p] * 256 + d[p + 1]
}

pub open spec fn at_i16(d: Seq<u8>, p: int) -> int {
    let u = at_u16(d, p);
    if u >= 32768 { u - 65536 } else { u }
}

pub open spec fn at_u32(d: Seq<u8>, p: int) -> int {
    at_u16(d, p) * 65536 + at_u16(d, p + 2)
}

pub open spec fn at_i32(d: Seq<u8>, p: int) -> int {
    let u = at_u32(d, p);
    if u >= 0x8000_0000 { u - 0x1_0000_0000 } else { u }
}

pub open spec fn at_u64(d: Seq<u8>, p: int) -> int {
    at_u32(d, p) * 0x1_0000_0000 + at_u32(d, p + 4)
}

pub open spec fn at_i64(d: Seq<u8>, p: int) -> int {
    let u = at_u64(d, p);
    if u >= 0x8000_0000_0000_0000 { u - 0x1_0000_0000_0000_0000 } else { u }
}

pub open spec fn signed_byte(b: u8) -> int {
    if b >= 128 { b - 256 } else { b as int }
}

// ----- messages -----

pub open spec fn eof_msg(collect: bool) -> Seq<char> {
    if collect { "level.dat NBT 被截断"@ } else { "NBT 数据被截断"@ }
}

pub open spec fn negative_msg(n: int) -> Seq<char> {
    "NBT 集合长度为负数："@ + dec_int(n)
}

pub open spec fn oversize_msg(n: int) -> Seq<char> {
    "NBT 集合异常大："@ + dec_int(n) + " 项"@
}

pub open spec fn depth_msg() -> Seq<char> {
    "NBT 嵌套超过 512 层"@
}

pub open spec fn end_list_msg() -> Seq<char> {
    "非空 NBT List 使用 TAG_End 类型"@
}

pub open spec fn tag_msg(t: int) -> Seq<char> {
    "非法 NBT 标签类型："@ + dec_int(t)
}

pub open spec fn root_msg(collect: bool, t: int) -> Seq<char> {
    if collect {
        "level.dat 根标签类型为 "@ + dec_int(t) + "，预期 Compound(10)"@
    } else {
        "NBT 根标签类型为 "@ + dec_int(t) + "，预期 Compound(10)"@
    }
}

// ----- the grammar -----

/// A collection length, checked against sign and size.
pub open spec fn checked_length(n: int, element_bytes: int) -> Result<int, Seq<char>> {
    if n < 0 {
        Err(negative_msg(n))
    } else if n * element_bytes > MAX_COLLECTION_LENGTH {
        Err(oversize_msg(n))
    } else {
        Ok(n)
    }
}

/// A string: 16-bit unsigned byte length, then the bytes, decoded leniently.
pub open spec fn sp_string(d: Seq<u8>, pos: int, c: bool) -> Result<(Seq<char>, int), Seq<char>> {
    if pos + 2 > d.len() {
        Err(eof_msg(c))
    } else {
        let n = at_u16(d, pos);
        if pos + 2 + n > d.len() {
            Err(eof_msg(c))
        } else {
            Ok((spec_utf8_lossy(d.subrange(pos + 2, pos + 2 + n)), pos + 2 + n))
        }
    }
}

/// `n` bytes that are stepped over.
pub open spec fn sp_skip(d: Seq<u8>, pos: int, n: int, c: bool) -> Result<(Nbt, int), Seq<char>> {
    if pos + n > d.len() {
        Err(eof_msg(c))
    } else {
        Ok((Nbt::Skipped, pos + n))
    }
}

/// An array of `element_bytes`-wide numbers, which is checked and stepped over.
pub open spec fn sp_array(d: Seq<u8>, pos: int, element_bytes: int, c: bool) -> Result<(Nbt, int), Seq<char>> {
    if pos + 4 > d.len() {
        Err(eof_msg(c))
    } else {
        match checked_length(at_i32(d, pos), element_bytes) {
            Err(m) => Err(m),
            Ok(n) => sp_skip(d, pos + 4, n * element_bytes, c),
        }
    }
}

/// The payload of a tag of type `tag` at nesting level `depth`.
pub open spec fn sp_payload(d: Seq<u8>, pos: int, tag: u8, depth: int, c: bool) -> Result<(Nbt, int), Seq<char>>
    decreases 513 - depth, 0int, 0int,
{
    if depth > 512 {
        Err(depth_msg())
    } else if tag == 1 {
        if pos + 1 > d.len() { Err(eof_msg(c)) } else { Ok((Nbt::Number(signed_byte(d[pos])), pos + 1)) }
    } else if tag == 2 {
        if pos + 2 > d.len() { Err(eof_msg(c)) } else { Ok((Nbt::Number(at_i16(d, pos)), pos + 2)) }
    } else if tag == 3 {
        if pos + 4 > d.len() { Err(eof_msg(c)) } else { Ok((Nbt::Number(at_i32(d, pos)), pos + 4)) }
    } else if tag == 4 {
        if pos + 8 > d.len() { Err(eof_msg(c)) } else { Ok((Nbt::Number(at_i64(d, pos)), pos + 8)) }
    } else if tag == 5 {
        if pos + 4 > d.len() { Err(eof_msg(c)) } else { Ok((Nbt::Float32(at_u32(d, pos) as u32), pos + 4)) }
    } else if tag == 6 {
        if pos + 8 > d.len() { Err(eof_msg(c)) } else { Ok((Nbt::Float64(at_u64(d, pos) as u64), pos + 8)) }
    } else if tag == 7 {
        if pos + 4 > d.len() {
            Err(eof_msg(c))
        } else {
            match checked_length(at_i32(d, pos), 1) {
                Err(m) => Err(m),
                Ok(n) => if pos + 4 + n > d.len() {
                    Err(eof_msg(c))
                } else if c && n <= MAX_KEPT_BYTES {
                    Ok((Nbt::Bytes(d.subrange(pos + 4, pos + 4 + n)), pos + 4 + n))
                } else {
                    Ok((Nbt::Skipped, pos + 4 + n))
                },
            }
        }
    } else if tag == 8 {
        match sp_string(d, pos, c) {
            Err(m) => Err(m),
            Ok((s, p)) => Ok((Nbt::Str(s), p)),
        }
    } else if tag == 9 {
        if pos + 5 > d.len() {
            Err(eof_msg(c))
        } else {
            let child = d[pos];
            match checked_length(at_i32(d, pos + 1), 1) {
                Err(m) => Err(m),
                Ok(n) => if child == 0 && n != 0 {
                    Err(end_list_msg())
                } else {
                    match sp_list(d, pos + 5, child, n, depth + 1, c) {
                        Err(m) => Err(m),
                        Ok((items, p)) => Ok((if c { Nbt::List(items) } else { Nbt::Skipped }, p)),
                    }
                },
            }
        }
    } else if tag == 10 {
        match sp_compound(d, pos, depth + 1, c) {
            Err(m) => Err(m),
            Ok((entries, p)) => Ok((if c { Nbt::Compound(entries) } else { Nbt::Skipped }, p)),
        }
    } else if tag == 11 {
        sp_array(d, pos, 4, c)
    } else if tag == 12 {
        sp_array(d, pos, 8, c)
    } else {
        Err(tag_msg(tag as int))
    }
}

/// `n` list elements of type `child`, each at level `depth`.
pub open spec fn sp_list(d: Seq<u8>, pos: int, child: u8, n: int, depth: int, c: bool) -> Result<(Seq<Nbt>, int), Seq<char>>
    decreases 513 - depth, n, 1int,
{
    if n <= 0 || depth > 513 {
        Ok((Seq::empty(), pos))
    } else {
        match sp_payload(d, pos, child, depth, c) {
            Err(m) => Err(m),
            Ok((v, p)) => match sp_list(d, p, child, n - 1, depth, c) {
                Err(m) => Err(m),
                Ok((vs, q)) => Ok((seq![v] + vs, q)),
            },
        }
    }
}

/// Named entries up to the end tag, each value at level `depth`.
pub open spec fn sp_compound(d: Seq<u8>, pos: int, depth: int, c: bool) -> Result<(Seq<(Seq<char>, Nbt)>, int), Seq<char>>
    decreases 513 - depth, d.len() - pos, 1int,
{
    if pos < 0 || pos + 1 > d.len() || depth > 513 {
        Err(eof_msg(c))
    } else {
        let t = d[pos];
        if t == 0 {
            Ok((Seq::empty(), pos + 1))
        } else if !(1 <= t && t <= 12) {
            Err(tag_msg(t as int))
        } else {
            match sp_string(d, pos + 1, c) {
                Err(m) => Err(m),
                Ok((name, p1)) => match sp_payload(d, p1, t, depth, c) {
                    Err(m) => Err(m),
                    Ok((v, p2)) => if pos < p2 && p2 <= d.len() {
                        match sp_compound(d, p2, depth, c) {
                            Err(m) => Err(m),
                            Ok((es, q)) => Ok((seq![(name, v)] + es, q)),
                        }
                    } else {
                        Err(eof_msg(c))
                    },
                },
            }
        }
    }
}

/// A whole tree: the root type byte (which must be a compound), its name, its payload.
pub open spec fn sp_root(d: Seq<u8>, c: bool) -> Result<(Nbt, int), Seq<char>> {
    if d.len() < 1 {
        Err(eof_msg(c))
    } else if d[0] != 10 {
        Err(root_msg(c, d[0] as int))
    } else {
        match sp_string(d, 1, c) {
            Err(m) => Err(m),
            Ok((_name, p)) => sp_payload(d, p, 10, 0, c),
        }
    }
}

// ----- executable reader -----

enum Value {
    Number(i64),
    Float32(u32),
    Float64(u64),
    Bytes(Vec<u8>),
    Str(String),
    List(Vec<Value>),
    Compound(Vec<(String, Value)>),
    Skipped,
}

impl Value {
    spec fn sv(&self) -> Nbt
        decreases self,
    {
        match self {
            Value::Number(n) => Nbt::Number(*n as int),
            Value::Float32(b) => Nbt::Float32(*b),
            Value::Float64(b) => Nbt::Float64(*b),
            Value::Bytes(b) => Nbt::Bytes(b@),
            Value::Str(s) => Nbt::Str(s@),
            Value::List(items) => Nbt::List(
                Seq::new(items@.len(), |i: int| if 0 <= i < items@.len() { items@[i].sv() } else { Nbt::Skipped }),
            ),
            Value::Compound(es) => Nbt::Compound(
                Seq::new(
                    es@.len(),
                    |i: int| if 0 <= i < es@.len() { (es@[i].0@, es@[i].1.sv()) } else { (Seq::empty(), Nbt::Skipped) },
                ),
            ),
            Value::Skipped => Nbt::Skipped,
        }
    }
}

spec fn list_view(items: Seq<Value>) -> Seq<Nbt> {
    Seq::new(items.len(), |i: int| items[i].sv())
}

spec fn entries_view(es: Seq<(String, Value)>) -> Seq<(Seq<char>, Nbt)> {
    Seq::new(es.len(), |i: int| (es[i].0@, es[i].1.sv()))
}

proof fn lemma_list_sv(items: Vec<Value>)
    ensures
        Value::List(items).sv() == Nbt::List(list_view(items@)),
{
    let x = Value::List(items).sv();
    if let Nbt::List(s) = x {
        assert(s =~= list_view(items@));
    }
}

proof fn lemma_compound_sv(es: Vec<(String, Value)>)
    ensures
        Value::Compound(es).sv() == Nbt::Compound(entries_view(es@)),
{
    let x = Value::Compound(es).sv();
    if let Nbt::Compound(s) = x {
        assert(s =~= entries_view(es@));
    }
}

/// Whether an executable outcome is the spec outcome.
spec fn agrees<T, S>(r: Result<(T, usize), String>, s: Result<(S, int), Seq<char>>, view: spec_fn(T) -> S) -> bool {
    match r {
        Ok((v, p)) => s == Ok::<(S, int), Seq<char>>((view(v), p as int)),
        Err(m) => s == Err::<(S, int), Seq<char>>(m@),
    }
}

fn eof(c: bool) -> (m: String)
    ensures
        m@ == eof_msg(c),
{
    if c {
        "level.dat NBT 被截断".to_owned()
    } else {
        "NBT 数据被截断".to_owned()
    }
}

fn read_i16(d: &[u8], p: usize) -> (r: i16)
    requires
        p + 2 <= d.len(),
    ensures
        r as int == at_i16(d@, p as int),
{
    let u: i32 = d[p] as i32 * 256 + d[p + 1] as i32;
    if u >= 32768 {
        (u - 65536) as i16
    } else {
        u as i16
    }
}

fn read_u32(d: &[u8], p: usize) -> (r: u32)
    requires
        p + 4 <= d.len(),
    ensures
        r as int == at_u32(d@, p as int),
{
    let hi: u32 = d[p] as u32 * 256 + d[p + 1] as u32;
    let lo: u32 = d[p + 2] as u32 * 256 + d[p + 3] as u32;
    hi * 65536 + lo
}

pub(crate) fn read_i32(d: &[u8], p: usize) -> (r: i32)
    requires
        p + 4 <= d.len(),
    ensures
        r as int == at_i32(d@, p as int),
{
    let u: i64 = read_u32(d, p) as i64;
    if u >= 0x8000_0000 {
        (u - 0x1_0000_0000) as i32
    } else {
        u as i32
    }
}

fn read_u64(d: &[u8], p: usize) -> (r: u64)
    requires
        p + 8 <= d.len(),
    ensures
        r as int == at_u64(d@, p as int),
{
    let hi: u64 = read_u32(d, p) as u64;
    let lo: u64 = read_u32(d, p + 4) as u64;
    hi * 0x1_0000_0000 + lo
}

fn read_i64(d: &[u8], p: usize) -> (r: i64)
    requires
        p + 8 <= d.len(),
    ensures
        r as int == at_i64(d@, p as int),
{
    let u: i128 = read_u64(d, p) as i128;
    if u >= 0x8000_0000_0000_0000 {
        (u - 0x1_0000_0000_0000_0000) as i64
    } else {
        u as i64
    }
}

fn checked(n: i32, element_bytes: i64, c: bool) -> (r: Result<i64, String>)
    requires
        element_bytes == 1 || element_bytes == 4 || element_bytes == 8,
    ensures
        match r {
            Ok(v) => checked_length(n as int, element_bytes as int) == Ok::<int, Seq<char>>(v as int),
            Err(m) => checked_length(n as int, element_bytes as int) == Err::<int, Seq<char>>(m@),
        },
{
    if n < 0 {
        let mut m = "NBT 集合长度为负数：".to_owned();
        let digits = dec_string(n as i64);
        push_str(&mut m, digits.as_str());
        return Err(m);
    }
    let total: i64 = if element_bytes == 1 {
        n as i64
    } else if element_bytes == 4 {
        n as i64 * 4
    } else {
        n as i64 * 8
    };
    if total > MAX_COLLECTION_LENGTH {
        let mut m = "NBT 集合异常大：".to_owned();
        let digits = dec_string(n as i64);
        push_str(&mut m, digits.as_str());
        push_str(&mut m, " 项");
        return Err(m);
    }
    Ok(n as i64)
}

fn tag_error(t: u8) -> (m: String)
    ensures
        m@ == tag_msg(t as int),
{
    let mut m = "非法 NBT 标签类型：".to_owned();
    let digits = dec_string(t as i64);
    push_str(&mut m, digits.as_str());
    m
}

pub(crate) fn copy_range(d: &[u8], from: usize, to: usize) -> (v: Vec<u8>)
    requires
        from <= to <= d@.len(),
    ensures
        v@ == d@.subrange(from as int, to as int),
{
    let mut v: Vec<u8> = Vec::new();
    let mut i = from;
    while i < to
        invariant
            from <= i <= to <= d@.len(),
            v@ == d@.subrange(from as int, i as int),
        decreases to - i,
    {
        v.push(d[i]);
        assert(d@.subrange(from as int, i as int).push(d@[i as int]) =~= d@.subrange(from as int, i + 1));
        i += 1;
    }
    v
}

fn read_string(d: &[u8], pos: usize, c: bool) -> (r: Result<(String, usize), String>)
    requires
        pos <= d@.len(),
    ensures
        agrees(r, sp_string(d@, pos as int, c), |s: String| s@),
        r matches Ok((_, p)) ==> pos + 2 <= p <= d@.len(),
{
    if d.len() - pos < 2 {
        return Err(eof(c));
    }
    let n = d[pos] as usize * 256 + d[pos + 1] as usize;
    if d.len() - pos - 2 < n {
        return Err(eof(c));
    }
    let bytes = copy_range(d, pos + 2, pos + 2 + n);
    let s = utf8_lossy(bytes.as_slice());
    Ok((s, pos + 2 + n))
}

fn skip_array(d: &[u8], pos: usize, element_bytes: i64, c: bool) -> (r: Result<(Value, usize), String>)
    requires
        pos <= d@.len(),
        element_bytes == 4 || element_bytes == 8,
    ensures
        agrees(r, sp_array(d@, pos as int, element_bytes as int, c), |v: Value| v.sv()),
        r matches Ok((_, p)) ==> pos < p <= d@.len(),
{
    if d.len() - pos < 4 {
        return Err(eof(c));
    }
    let raw = read_i32(d, pos);
    let n = match checked(raw, element_bytes, c) {
        Ok(n) => n,
        Err(m) => return Err(m),
    };
    let total = (n * element_bytes) as usize;
    if d.len() - pos - 4 < total {
        return Err(eof(c));
    }
    Ok((Value::Skipped, pos + 4 + total))
}

fn payload(d: &[u8], pos: usize, tag: u8, depth: usize, c: bool) -> (r: Result<(Value, usize), String>)
    requires
        pos <= d@.len(),
    ensures
        agrees(r, sp_payload(d@, pos as int, tag, depth as int, c), |v: Value| v.sv()),
        r matches Ok((_, p)) ==> pos < p <= d@.len(),
    decreases 513 - depth, 0int,
{
    if depth > MAX_DEPTH {
        return Err("NBT 嵌套超过 512 层".to_owned());
    }
    let rest = d.len() - pos;
    if tag == 1 {
        if rest < 1 {
            return Err(eof(c));
        }
        let b = d[pos];
        let v: i64 = if b >= 128 { b as i64 - 256 } else { b as i64 };
        Ok((Value::Number(v), pos + 1))
    } else if tag == 2 {
        if rest < 2 {
            return Err(eof(c));
        }
        Ok((Value::Number(read_i16(d, pos) as i64), pos + 2))
    } else if tag == 3 {
        if rest < 4 {
            return Err(eof(c));
        }
        Ok((Value::Number(read_i32(d, pos) as i64), pos + 4))
    } else if tag == 4 {
        if rest < 8 {
            return Err(eof(c));
        }
        Ok((Value::Number(read_i64(d, pos)), pos + 8))
    } else if tag == 5 {
        if rest < 4 {
            return Err(eof(c));
        }
        Ok((Value::Float32(read_u32(d, pos)), pos + 4))
    } else if tag == 6 {
        if rest < 8 {
            return Err(eof(c));
        }
        Ok((Value::Float64(read_u64(d, pos)), pos + 8))
    } else if tag == 7 {
        if rest < 4 {
            return Err(eof(c));
        }
        let raw = read_i32(d, pos);
        let n = match checked(raw, 1, c) {
            Ok(n) => n as usize,
            Err(m) => return Err(m),
        };
        if rest - 4 < n {
            return Err(eof(c));
        }
        if c && n <= 1048576 {
            let bytes = copy_range(d, pos + 4, pos + 4 + n);
            Ok((Value::Bytes(bytes), pos + 4 + n))
        } else {
            Ok((Value::Skipped, pos + 4 + n))
        }
    } else if tag == 8 {
        match read_string(d, pos, c) {
            Ok((s, p)) => Ok((Value::Str(s), p)),
            Err(m) => Err(m),
        }
    } else if tag == 9 {
        if rest < 5 {
            return Err(eof(c));
        }
        let child = d[pos];
        let raw = read_i32(d, pos + 1);
        let n = match checked(raw, 1, c) {
            Ok(n) => n,
            Err(m) => return Err(m),
        };
        if child == 0 && n != 0 {
            return Err("非空 NBT List 使用 TAG_End 类型".to_owned());
        }
        match read_list(d, pos + 5, child, n, depth + 1, c) {
            Ok((items, p)) => {
                if c {
                    proof {
                        lemma_list_sv(items);
                    }
                    Ok((Value::List(items), p))
                } else {
                    Ok((Value::Skipped, p))
                }
            },
            Err(m) => Err(m),
        }
    } else if tag == 10 {
        match read_compound(d, pos, depth + 1, c) {
            Ok((entries, p)) => {
                if c {
                    proof {
                        lemma_compound_sv(entries);
                    }
                    Ok((Value::Compound(entries), p))
                } else {
                    Ok((Value::Skipped, p))
                }
            },
            Err(m) => Err(m),
        }
    } else if tag == 11 {
        skip_array(d, pos, 4, c)
    } else if tag == 12 {
        skip_array(d, pos, 8, c)
    } else {
        Err(tag_error(tag))
    }
}

fn read_list(d: &[u8], pos: usize, child: u8, n: i64, depth: usize, c: bool) -> (r: Result<(Vec<Value>, usize), String>)
    requires
        pos <= d@.len(),
        1 <= depth <= 513,
        0 <= n,
    ensures
        match r {
            Ok((items, p)) => {
                &&& pos <= p <= d@.len()
                &&& sp_list(d@, pos as int, child, n as int, depth as int, c) matches Ok((vs, q))
                &&& q == p as int
                &&& (c ==> vs == list_view(items@))
            },
            Err(m) => sp_list(d@, pos as int, child, n as int, depth as int, c) == Err::<(Seq<Nbt>, int), Seq<char>>(m@),
        },
    decreases 513 - depth, 1int,
{
    let mut items: Vec<Value> = Vec::new();
    let ghost mut acc: Seq<Nbt> = Seq::empty();
    let mut cur = pos;
    let mut i: i64 = 0;
    while i < n
        invariant
            0 <= i <= n,
            pos <= cur <= d@.len(),
            1 <= depth <= 513,
            c ==> acc == list_view(items@),
            match sp_list(d@, cur as int, child, n - i, depth as int, c) {
                Ok((rest, q)) => sp_list(d@, pos as int, child, n as int, depth as int, c) == Ok::<(Seq<Nbt>, int), Seq<char>>((acc + rest, q)),
                Err(m) => sp_list(d@, pos as int, child, n as int, depth as int, c) == Err::<(Seq<Nbt>, int), Seq<char>>(m),
            },
        decreases n - i,
    {
        match payload(d, cur, child, depth, c) {
            Err(m) => {
                return Err(m);
            },
            Ok((v, p)) => {
                proof {
                    let sv = v.sv();
                    match sp_list(d@, p as int, child, n - i - 1, depth as int, c) {
                        Ok((rest, q)) => {
                            assert(acc + (seq![sv] + rest) =~= acc.push(sv) + rest);
                        },
                        Err(_) => {},
                    }
                    acc = acc.push(sv);
                }
                if c {
                    items.push(v);
                    assert(list_view(items@) =~= acc);
                }
                cur = p;
            },
        }
        i += 1;
    }
    proof {
        assert(acc + Seq::<Nbt>::empty() =~= acc);
    }
    Ok((items, cur))
}

fn read_compound(d: &[u8], pos: usize, depth: usize, c: bool) -> (r: Result<(Vec<(String, Value)>, usize), String>)
    requires
        pos <= d@.len(),
        1 <= depth <= 513,
    ensures
        match r {
            Ok((es, p)) => {
                &&& pos < p <= d@.len()
                &&& sp_compound(d@, pos as int, depth as int, c) matches Ok((vs, q))
                &&& q == p as int
                &&& (c ==> vs == entries_view(es@))
            },
            Err(m) => sp_compound(d@, pos as int, depth as int, c) == Err::<(Seq<(Seq<char>, Nbt)>, int), Seq<char>>(m@),
        },
    decreases 513 - depth, 1int,
{
    let mut es: Vec<(String, Value)> = Vec::new();
    let ghost mut acc: Seq<(Seq<char>, Nbt)> = Seq::empty();
    let mut cur = pos;
    loop
        invariant
            pos <= cur <= d@.len(),
            1 <= depth <= 513,
            c ==> acc == entries_view(es@),
            match sp_compound(d@, cur as int, depth as int, c) {
                Ok((rest, q)) => sp_compound(d@, pos as int, depth as int, c) == Ok::<(Seq<(Seq<char>, Nbt)>, int), Seq<char>>((acc + rest, q)),
                Err(m) => sp_compound(d@, pos as int, depth as int, c) == Err::<(Seq<(Seq<char>, Nbt)>, int), Seq<char>>(m),
            },
        decreases d@.len() - cur,
    {
        if cur >= d.len() {
            return Err(eof(c));
        }
        let t = d[cur];
        if t == 0 {
            assert(acc + Seq::<(Seq<char>, Nbt)>::empty() =~= acc);
            return Ok((es, cur + 1));
        }
        if !(1 <= t && t <= 12) {
            return Err(tag_error(t));
        }
        let (name, p1) = match read_string(d, cur + 1, c) {
            Ok(x) => x,
            Err(m) => return Err(m),
        };
        let (v, p2) = match payload(d, p1, t, depth, c) {
            Ok(x) => x,
            Err(m) => return Err(m),
        };
        proof {
            let e = (name@, v.sv());
            match sp_compound(d@, p2 as int, depth as int, c) {
                Ok((rest, q)) => {
                    assert(acc + (seq![e] + rest) =~= acc.push(e) + rest);
                },
                Err(_) => {},
            }
            acc = acc.push(e);
        }
        if c {
            es.push((name, v));
            assert(entries_view(es@) =~= acc);
        }
        cur = p2;
    }
}

fn root_error(c: bool, t: u8) -> (m: String)
    ensures
        m@ == root_msg(c, t as int),
{
    let mut m = if c {
        "level.dat 根标签类型为 ".to_owned()
    } else {
        "NBT 根标签类型为 ".to_owned()
    };
    let digits = dec_string(t as i64);
    push_str(&mut m, digits.as_str());
    push_str(&mut m, "，预期 Compound(10)");
    m
}

fn read_root(d: &[u8], c: bool) -> (r: Result<(Value, usize), String>)
    ensures
        agrees(r, sp_root(d@, c), |v: Value| v.sv()),
{
    if d.len() < 1 {
        return Err(eof(c));
    }
    if d[0] != 10 {
        return Err(root_error(c, d[0]));
    }
    let (_name, p) = match read_string(d, 1, c) {
        Ok(x) => x,
        Err(m) => return Err(m),
    };
    payload(d, p, 10, 0, c)
}

/// Checks that `source` begins with a complete, well-formed NBT tree whose
/// root is a compound. Bytes after the tree are not looked at.
pub fn validate_root(source: &[u8]) -> (r: Result<(), ConversionError>)
    ensures
        match sp_root(source@, false) {
            Ok(_) => r is Ok,
            Err(m) => r matches Err(e) && e.code@ == CODE_ERROR@ && e.message@ == m,
        },
{
    match read_root(source, false) {
        Ok(_) => Ok(()),
        Err(m) => Err(ConversionError::new(CODE_ERROR, m)),
    }
}

// ----- level.dat metadata -----

/// The first entry of a compound's entries named `key`.
pub open spec fn first_named(es: Seq<(Seq<char>, Nbt)>, key: Seq<char>) -> Option<Nbt>
    decreases es.len(),
{
    if es.len() == 0 {
        None
    } else if es[0].0 == key {
        Some(es[0].1)
    } else {
        first_named(es.drop_first(), key)
    }
}

/// The value of the first entry named `key`, if `v` is a compound.
pub open spec fn nbt_get(v: Nbt, key: Seq<char>) -> Option<Nbt> {
    match v {
        Nbt::Compound(es) => first_named(es, key),
        _ => None,
    }
}

pub open spec fn nbt_str(v: Option<Nbt>) -> Seq<char> {
    match v {
        Some(Nbt::Str(s)) => s,
        _ => Seq::empty(),
    }
}

/// The metadata of a level.dat root: its `Data` compound (or the root itself
/// when there is none) gives `DataVersion` (-1 when missing or not a number,
/// cut to 32 bits), `LevelName` and `Version.Name` (empty when missing).
pub open spec fn level_fields(root: Nbt) -> (i32, Seq<char>, Seq<char>) {
    let data = match nbt_get(root, "Data"@) {
        Some(x) => x,
        None => root,
    };
    let dv: i32 = match nbt_get(data, "DataVersion"@) {
        Some(Nbt::Number(n)) => n as i32,
        _ => -1i32,
    };
    let version = match nbt_get(data, "Version"@) {
        Some(v) => nbt_get(v, "Name"@),
        None => None,
    };
    (dv, nbt_str(version), nbt_str(nbt_get(data, "LevelName"@)))
}

/// What reading level.dat gives for its uncompressed bytes `d`.
pub open spec fn level_outcome(d: Seq<u8>) -> Result<(i32, Seq<char>, Seq<char>), Seq<char>> {
    match sp_root(d, true) {
        Err(m) => Err(m),
        Ok((root, _)) => if root is Compound {
            Ok(level_fields(root))
        } else {
            Err("level.dat 根标签不是 Compound"@)
        },
    }
}

fn get<'a>(v: &'a Value, key: &str) -> (r: Option<&'a Value>)
    ensures
        match r {
            Some(x) => nbt_get(v.sv(), key@) == Some(x.sv()),
            None => nbt_get(v.sv(), key@) is None,
        },
{
    match v {
        Value::Compound(es) => {
            proof {
                lemma_compound_sv(*es);
            }
            let mut i: usize = 0;
            assert(entries_view(es@).skip(0) =~= entries_view(es@));
            while i < es.len()
                invariant
                    i <= es@.len(),
                    v.sv() == Nbt::Compound(entries_view(es@)),
                    first_named(entries_view(es@), key@) == first_named(entries_view(es@).skip(i as int), key@),
                decreases es@.len() - i,
            {
                let ghost rest = entries_view(es@).skip(i as int);
                assert(rest.drop_first() =~= entries_view(es@).skip(i + 1));
                if str_eq(es[i].0.as_str(), key) {
                    return Some(&es[i].1);
                }
                i += 1;
            }
            None
        },
        _ => None,
    }
}

fn get_str(v: Option<&Value>) -> (r: String)
    ensures
        r@ == nbt_str(match v { Some(x) => Some(x.sv()), None => None }),
{
    match v {
        Some(Value::Str(s)) => s.clone(),
        _ => String::new(),
    }
}

/// The metadata in the uncompressed NBT of a level.dat.
pub fn level_metadata(nbt: &[u8]) -> (r: Result<LevelMetadata, ConversionError>)
    ensures
        match level_outcome(nbt@) {
            Ok((dv, version, name)) => r matches Ok(m) && m.data_version == dv && m.version_name@ == version
                && m.world_name@ == name,
            Err(msg) => r matches Err(e) && e.code@ == CODE_ERROR@ && e.message@ == msg,
        },
{
    let root = match read_root(nbt, true) {
        Ok((v, _)) => v,
        Err(m) => return Err(ConversionError::new(CODE_ERROR, m)),
    };
    if let Value::Compound(es) = &root {
        proof {
            lemma_compound_sv(*es);
        }
    } else {
        return Err(ConversionError::new(CODE_ERROR, "level.dat 根标签不是 Compound".to_owned()));
    }
    let data = match get(&root, "Data") {
        Some(x) => x,
        None => &root,
    };
    let data_version: i32 = match get(data, "DataVersion") {
        Some(Value::Number(n)) => *n as i32,
        _ => -1,
    };
    let world_name = get_str(get(data, "LevelName"));
    let version_name = match get(data, "Version") {
        Some(v) => get_str(get(v, "Name")),
        None => String::new(),
    };
    Ok(LevelMetadata { data_version, version_name, world_name })
}

/// The metadata of a gzip-compressed level.dat file.
pub fn read_level_dat(file: &[u8]) -> (r: Result<LevelMetadata, ConversionError>)
    ensures
        match level_outcome(spec_gunzip(file@)) {
            Ok((dv, version, name)) => r matches Ok(m) && m.data_version == dv && m.version_name@ == version
                && m.world_name@ == name,
            Err(msg) => r matches Err(e) && e.code@ == CODE_ERROR@ && e.message@ == msg,
        },
{
    let raw = gunzip(file);
    level_metadata(raw.as_slice())
}


/// The numeric tags take fixed widths: a Byte 1 byte, a Short 2, an Int 4,
/// a Long 8, a Float 4 and a Double 8. Each is read when that many bytes
/// remain and is then followed by the next tag; with fewer bytes the tree
/// ends too early. A String takes its 2-byte length and that many bytes.
pub proof fn law_fixed_width_payloads(d: Seq<u8>, pos: int, depth: int, c: bool)
    requires
        0 <= pos,
        depth <= 512,
    ensures
        pos + 1 <= d.len() ==> (sp_payload(d, pos, 1, depth, c) matches Ok((_, p)) && p == pos + 1),
        pos + 2 <= d.len() ==> (sp_payload(d, pos, 2, depth, c) matches Ok((_, p)) && p == pos + 2),
        pos + 4 <= d.len() ==> (sp_payload(d, pos, 3, depth, c) matches Ok((_, p)) && p == pos + 4),
        pos + 8 <= d.len() ==> (sp_payload(d, pos, 4, depth, c) matches Ok((_, p)) && p == pos + 8),
        pos + 4 <= d.len() ==> (sp_payload(d, pos, 5, depth, c) matches Ok((_, p)) && p == pos + 4),
        pos + 8 <= d.len() ==> (sp_payload(d, pos, 6, depth, c) matches Ok((_, p)) && p == pos + 8),
        pos + 1 > d.len() ==> sp_payload(d, pos, 1, depth, c) == Err::<(Nbt, int), Seq<char>>(eof_msg(c)),
        pos + 2 > d.len() ==> sp_payload(d, pos, 2, depth, c) == Err::<(Nbt, int), Seq<char>>(eof_msg(c)),
        pos + 4 > d.len() ==> sp_payload(d, pos, 3, depth, c) == Err::<(Nbt, int), Seq<char>>(eof_msg(c)),
        pos + 8 > d.len() ==> sp_payload(d, pos, 4, depth, c) == Err::<(Nbt, int), Seq<char>>(eof_msg(c)),
        pos + 4 > d.len() ==> sp_payload(d, pos, 5, depth, c) == Err::<(Nbt, int), Seq<char>>(eof_msg(c)),
        pos + 8 > d.len() ==> sp_payload(d, pos, 6, depth, c) == Err::<(Nbt, int), Seq<char>>(eof_msg(c)),
        pos + 2 <= d.len() && pos + 2 + (d[pos] * 256 + d[pos + 1]) <= d.len() ==> (sp_payload(d, pos, 8, depth, c) matches Ok(
            (_, p),
        ) && p == pos + 2 + (d[pos] * 256 + d[pos + 1])),
{
}

} // verus!
