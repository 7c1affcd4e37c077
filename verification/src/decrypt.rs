//! NetEase Bedrock decryption: the key recovery, the cyclic XOR and the
//! decisions made while a LevelDB directory is normalised.
//!
//! An encrypted file is the 4-byte header `80 1D 30 01` followed by the
//! plain bytes XORed with a short key, cyclically by plain offset. The key is
//! recovered from known plain text: the `CURRENT` file holds the manifest
//! name and a newline, and every table file (`.ldb`) ends with the 8-byte
//! LevelDB footer magic.

use crate::detect::{has_header, header_matches, legacy_aes_header, legacy_aes_header_bytes, netease_header, netease_header_bytes};
use crate::archive::{bytes_eq, file_name, file_name_of, is_prefix_of, parts, path_starts_with};
use crate::error::{fails_with, ConversionError, CODE_ERROR};
use crate::models::WorldType;
use crate::text::{
    lemma_parse_unsigned_range, chars_of, ends_with, has_prefix, has_suffix, parse_u64, parse_unsigned, push_str, spec_lowercase,
    spec_uppercase, starts_with, str_eq, string_of, to_lowercase, to_uppercase, trim, trimmed,
};
use vstd::prelude::*;
use vstd::utf8::{decode_utf8, encode_utf8, valid_utf8};

verus! {

/// The last 8 bytes of every LevelDB table file.
pub open spec fn footer_magic() -> Seq<u8> {
    seq![0x57u8, 0xFBu8, 0x80u8, 0x8Bu8, 0x24u8, 0x75u8, 0x47u8, 0xDBu8]
}

/// The LevelDB table footer magic.
pub fn leveldb_footer() -> (r: Vec<u8>)
    ensures
        r@ == footer_magic(),
{
    let r = vec![0x57u8, 0xFBu8, 0x80u8, 0x8Bu8, 0x24u8, 0x75u8, 0x47u8, 0xDBu8];
    assert(r@ =~= footer_magic());
    r
}

// ----- the shortest period of a byte sequence -----

/// `p` is a period of `raw`: every byte repeats the one `p` places earlier.
pub open spec fn is_period(raw: Seq<u8>, p: int) -> bool {
    forall|i: int| p <= i < raw.len() ==> #[trigger] raw[i] == raw[i % p]
}

pub open spec fn period_limit(raw: Seq<u8>) -> int {
    if raw.len() < 32 { raw.len() as int } else { 32 }
}

/// Whether `p` is the smallest period of `raw` that is at most 32.
pub open spec fn is_shortest_period(raw: Seq<u8>, p: int) -> bool {
    &&& 1 <= p <= period_limit(raw)
    &&& is_period(raw, p)
    &&& forall|q: int| 1 <= q < p ==> !is_period(raw, q)
}

/// The repeating unit of `raw`: its first `p` bytes for the smallest period
/// `p <= 32`, or all of `raw` when there is none.
pub open spec fn repeating_unit(raw: Seq<u8>) -> Seq<u8> {
    if exists|p: int| is_shortest_period(raw, p) {
        raw.take(choose|p: int| is_shortest_period(raw, p))
    } else {
        raw
    }
}

proof fn lemma_shortest_unique(raw: Seq<u8>, p: int, q: int)
    requires
        is_shortest_period(raw, p),
        is_shortest_period(raw, q),
    ensures
        p == q,
{
}

/// The repeating unit of a byte sequence (see `repeating_unit`).
pub fn shortest_period(raw: &[u8]) -> (r: Vec<u8>)
    ensures
        r@ == repeating_unit(raw@),
{
    let limit: usize = if raw.len() < 32 { raw.len() } else { 32 };
    let mut period: usize = 1;
    while period <= limit
        invariant
            limit == period_limit(raw@),
            1 <= period <= limit + 1,
            forall|q: int| 1 <= q < period ==> !is_period(raw@, q),
        decreases limit + 1 - period,
    {
        let mut index = period;
        while index < raw.len() && raw[index] == raw[index % period]
            invariant
                1 <= period <= index <= raw@.len(),
                forall|i: int| period <= i < index ==> #[trigger] raw@[i] == raw@[i % period as int],
            decreases raw@.len() - index,
        {
            index += 1;
        }
        let matched = index == raw.len();
        if matched && index == raw.len() {
            let mut out: Vec<u8> = Vec::new();
            let mut k: usize = 0;
            while k < period
                invariant
                    k <= period <= raw@.len(),
                    out@ == raw@.take(k as int),
                decreases period - k,
            {
                out.push(raw[k]);
                assert(raw@.take(k as int).push(raw@[k as int]) =~= raw@.take(k + 1));
                k += 1;
            }
            proof {
                assert(is_shortest_period(raw@, period as int));
                let c = choose|p: int| is_shortest_period(raw@, p);
                lemma_shortest_unique(raw@, period as int, c);
            }
            return out;
        }
        proof {
            assert(raw@[index as int] != raw@[index as int % period as int]);
            assert(!is_period(raw@, period as int));
        }
        period += 1;
    }
    let mut out: Vec<u8> = Vec::new();
    let mut k: usize = 0;
    while k < raw.len()
        invariant
            k <= raw@.len(),
            out@ == raw@.take(k as int),
        decreases raw@.len() - k,
    {
        out.push(raw[k]);
        assert(raw@.take(k as int).push(raw@[k as int]) =~= raw@.take(k + 1));
        k += 1;
    }
    assert(raw@.take(raw@.len() as int) =~= raw@);
    out
}

proof fn lemma_unit_nonempty(raw: Seq<u8>)
    requires
        raw.len() > 0,
    ensures
        repeating_unit(raw).len() > 0,
{
    if exists|p: int| is_shortest_period(raw, p) {
        let p = choose|p: int| is_shortest_period(raw, p);
        assert(raw.take(p).len() == p);
    }
}

// ----- what is known of the database files -----

/// A file of the LevelDB directory, as far as key recovery looks at it.
#[derive(Debug)]
pub struct DbFile {
    /// The file name.
    pub name: String,
    /// The file begins with the NetEase header.
    pub encrypted: bool,
    /// The file size in bytes.
    pub size: u64,
    /// The last 8 bytes of the file (all of them when it is shorter).
    pub tail: Vec<u8>,
}

pub open spec fn tails_ok(files: Seq<DbFile>) -> bool {
    forall|i: int| 0 <= i < files.len() ==> (#[trigger] files[i]).size >= 8 ==> files[i].tail@.len() == 8
}

/// An encrypted table file (by its lower-cased name).
pub open spec fn is_encrypted_ldb(f: DbFile) -> bool {
    f.encrypted && has_suffix(spec_lowercase(f.name@), ".ldb"@)
}

/// The 8-byte key that turns the last 8 encrypted bytes of a file of `size`
/// bytes into the footer magic. The key is used cyclically by plain offset,
/// so its byte `k` meets the footer at position `(k - plain_offset) mod 8`.
pub open spec fn footer_key(size: int, tail: Seq<u8>) -> Option<Seq<u8>> {
    let plain = size - 4;
    if plain < 8 {
        None
    } else {
        let r = (plain - 8) % 8;
        Some(Seq::new(8, |k: int| tail[(k - r + 8) % 8] ^ footer_magic()[(k - r + 8) % 8]))
    }
}

/// Whether `key` decrypts the last 8 bytes of a file of `size` bytes to the
/// footer magic.
pub open spec fn footer_matches(size: int, tail: Seq<u8>, key: Seq<u8>) -> bool {
    let plain = size - 4;
    plain >= 8 && forall|i: int|
        0 <= i < 8 ==> #[trigger] (tail[i] ^ key[(plain - 8 + i) % key.len() as int]) == footer_magic()[i]
}

/// The key candidate from `CURRENT`: its encrypted bytes XORed with the known
/// plain text (the manifest name and a newline), reduced to its repeating unit.
pub open spec fn current_candidate(manifest: Seq<char>, current: Option<Seq<u8>>) -> Option<Seq<u8>> {
    match current {
        None => None,
        Some(enc) => {
            let plain = encode_utf8(manifest.push('\n'));
            if enc.len() - 4 == plain.len() {
                Some(repeating_unit(Seq::new(plain.len(), |i: int| enc[i + 4] ^ plain[i])))
            } else {
                None
            }
        },
    }
}

/// The footer key candidates of the encrypted table files, in order.
pub open spec fn ldb_keys(files: Seq<DbFile>) -> Seq<Seq<u8>>
    decreases files.len(),
{
    if files.len() == 0 {
        Seq::empty()
    } else {
        let rest = ldb_keys(files.drop_first());
        if is_encrypted_ldb(files[0]) {
            match footer_key(files[0].size as int, files[0].tail@) {
                Some(k) => seq![k] + rest,
                None => rest,
            }
        } else {
            rest
        }
    }
}

/// The number of encrypted table files.
pub open spec fn encrypted_ldb_count(files: Seq<DbFile>) -> int
    decreases files.len(),
{
    if files.len() == 0 {
        0
    } else {
        encrypted_ldb_count(files.drop_first()) + if is_encrypted_ldb(files[0]) { 1int } else { 0int }
    }
}

/// The number of encrypted table files whose footer `key` decrypts correctly.
pub open spec fn valid_footers(files: Seq<DbFile>, key: Seq<u8>) -> int
    decreases files.len(),
{
    if files.len() == 0 {
        0
    } else {
        valid_footers(files.drop_first(), key) + if is_encrypted_ldb(files[0]) && footer_matches(
            files[0].size as int,
            files[0].tail@,
            key,
        ) {
            1int
        } else {
            0int
        }
    }
}

/// All key candidates: the one from `CURRENT` first, then the footer keys.
pub open spec fn key_candidates(files: Seq<DbFile>, manifest: Seq<char>, current: Option<Seq<u8>>) -> Seq<Seq<u8>> {
    match current_candidate(manifest, current) {
        Some(k) => seq![k] + ldb_keys(files),
        None => ldb_keys(files),
    }
}

/// Candidate `j` validates the most footers, and is the first that does.
pub open spec fn is_best(files: Seq<DbFile>, cands: Seq<Seq<u8>>, j: int) -> bool {
    &&& 0 <= j < cands.len()
    &&& forall|i: int| 0 <= i < cands.len() ==> valid_footers(files, #[trigger] cands[i]) <= valid_footers(files, cands[j])
    &&& forall|i: int| 0 <= i < j ==> valid_footers(files, #[trigger] cands[i]) < valid_footers(files, cands[j])
}

/// The recovered key, with the number of encrypted table files and how many
/// of their footers the key decrypts.
#[derive(Debug)]
pub struct KeyRecovery {
    pub key: Vec<u8>,
    pub encrypted_ldb: usize,
    pub valid_footers: usize,
}

fn footer_key_of(size: u64, tail: &Vec<u8>) -> (r: Option<Vec<u8>>)
    requires
        size >= 8 ==> tail@.len() == 8,
    ensures
        match footer_key(size as int, tail@) {
            Some(k) => r matches Some(v) && v@ == k,
            None => r is None,
        },
{
    if size < 12 {
        return None;
    }
    let plain = size - 4;
    let r = ((plain - 8) % 8) as usize;
    let footer = leveldb_footer();
    let mut key: Vec<u8> = vec![0u8, 0u8, 0u8, 0u8, 0u8, 0u8, 0u8, 0u8];
    let mut i: usize = 0;
    while i < 8
        invariant
            i <= 8,
            r < 8,
            key@.len() == 8,
            tail@.len() == 8,
            footer@ == footer_magic(),
            forall|j: int| 0 <= j < i ==> key@[(r + j) % 8] == #[trigger] (tail@[j] ^ footer@[j]),
        decreases 8 - i,
    {
        key.set((r + i) % 8, tail[i] ^ footer[i]);
        i += 1;
    }
    let ghost expected = Seq::new(8, |k: int| tail@[(k - r + 8) % 8] ^ footer_magic()[(k - r + 8) % 8]);
    assert forall|k: int| 0 <= k < 8 implies key@[k] == expected[k] by {
        let j = (k - r + 8) % 8;
        assert((r + j) % 8 == k);
        assert(key@[(r + j) % 8] == (tail@[j] ^ footer@[j]));
    }
    assert(key@ =~= expected);
    Some(key)
}

fn footer_matches_exec(size: u64, tail: &Vec<u8>, key: &Vec<u8>) -> (r: bool)
    requires
        size >= 8 ==> tail@.len() == 8,
        key@.len() > 0,
    ensures
        r == footer_matches(size as int, tail@, key@),
{
    if size < 12 {
        return false;
    }
    let offset: u64 = size - 12;
    let footer = leveldb_footer();
    let len = key.len() as u64;
    let mut i: usize = 0;
    while i < 8
        invariant
            i <= 8,
            tail@.len() == 8,
            footer@ == footer_magic(),
            len == key@.len(),
            len > 0,
            len as int <= usize::MAX as int,
            offset == size - 12,
            forall|j: int|
                0 <= j < i ==> #[trigger] (tail@[j] ^ key@[((size as int) - 4 - 8 + j) % key@.len() as int])
                    == footer_magic()[j],
        decreases 8 - i,
    {
        proof {
            vstd::arithmetic::div_mod::lemma_mod_pos_bound((offset + i) as int, len as int);
        }
        let k = ((offset + i as u64) % len) as usize;
        assert(key@[k as int] == key@[((size as int) - 4 - 8 + i) % key@.len() as int]);
        if tail[i] ^ key[k] != footer[i] {
            assert(key@[k as int] == key@[((size as int) - 4 - 8 + i) % key@.len() as int]);
            assert(!((tail@[i as int] ^ key@[((size as int) - 4 - 8 + i) % key@.len() as int]) == footer_magic()[i as int]));
            return false;
        }
        i += 1;
    }
    true
}

fn is_encrypted_ldb_exec(f: &DbFile) -> (r: bool)
    ensures
        r == is_encrypted_ldb(*f),
{
    if !f.encrypted {
        return false;
    }
    let lower = to_lowercase(f.name.as_str());
    ends_with(lower.as_str(), ".ldb")
}

fn count_valid(files: &Vec<DbFile>, key: &Vec<u8>) -> (r: usize)
    requires
        tails_ok(files@),
        key@.len() > 0,
    ensures
        r as int == valid_footers(files@, key@),
{
    let mut n: usize = 0;
    let mut i: usize = 0;
    assert(files@.skip(0) =~= files@);
    while i < files.len()
        invariant
            i <= files@.len(),
            n <= i,
            tails_ok(files@),
            key@.len() > 0,
            valid_footers(files@, key@) == n + valid_footers(files@.skip(i as int), key@),
        decreases files@.len() - i,
    {
        assert(files@.skip(i as int).drop_first() =~= files@.skip(i + 1));
        let f = &files[i];
        if is_encrypted_ldb_exec(f) && footer_matches_exec(f.size, &f.tail, key) {
            n += 1;
        }
        i += 1;
    }
    n
}

fn current_key(manifest_name: &str, current: &Option<Vec<u8>>) -> (r: Option<Vec<u8>>)
    ensures
        match current_candidate(manifest_name@, opt_view(*current)) {
            Some(k) => r matches Some(v) && v@ == k,
            None => r is None,
        },
{
    match current {
        None => None,
        Some(enc) => {
            let mut text = manifest_name.to_owned();
            push_str(&mut text, "\n");
            assert("\n"@ == seq!['\n']) by {
                reveal_strlit("\n");
            }
            assert(text@ =~= manifest_name@.push('\n'));
            let plain = text.as_str().as_bytes();
            if enc.len() < 4 || enc.len() - 4 != plain.len() {
                return None;
            }
            let mut raw: Vec<u8> = Vec::new();
            let mut i: usize = 0;
            while i < plain.len()
                invariant
                    i <= plain@.len(),
                    enc.len() == plain.len() + 4,
                    raw@.len() == i,
                    forall|j: int| 0 <= j < i ==> raw@[j] == #[trigger] (enc@[j + 4] ^ plain@[j]),
                decreases plain@.len() - i,
            {
                raw.push(enc[i + 4] ^ plain[i]);
                i += 1;
            }
            assert(raw@ =~= Seq::new(plain@.len(), |i: int| enc@[i + 4] ^ plain@[i]));
            Some(shortest_period(raw.as_slice()))
        },
    }
}

/// What recovery answers when candidate `j` is the best one.
pub open spec fn recovery_outcome(files: Seq<DbFile>, cands: Seq<Seq<u8>>, j: int, r: Result<KeyRecovery, ConversionError>) -> bool {
    let v = valid_footers(files, cands[j]);
    let e = encrypted_ldb_count(files);
    if e > 0 && v == 0 {
        fails_with(r, "候选密钥无法通过任何 LevelDB footer 校验"@)
    } else {
        r matches Ok(k) && k.key@ == cands[j] && k.encrypted_ldb == e && k.valid_footers == v
    }
}

pub open spec fn opt_view(v: Option<Vec<u8>>) -> Option<Seq<u8>> {
    match v {
        Some(x) => Some(x@),
        None => None,
    }
}

/// The whole answer of key recovery: a failure when there is no candidate,
/// otherwise the outcome for the best candidate.
pub open spec fn recovery_spec(files: Seq<DbFile>, manifest: Seq<char>, current: Option<Seq<u8>>, r: Result<KeyRecovery, ConversionError>) -> bool {
    let cands = key_candidates(files, manifest, current);
    &&& cands.len() == 0 ==> fails_with(r, "无法从 CURRENT 或 .ldb footer 恢复网易 XOR 密钥"@)
    &&& cands.len() > 0 ==> exists|j: int| #[trigger] is_best(files, cands, j) && recovery_outcome(files, cands, j, r)
}

/// Recovers the XOR key of a NetEase database. `files` are the database
/// files in name order, `manifest_name` the manifest that `CURRENT` names,
/// and `current` the contents of `CURRENT` when it is encrypted.
///
/// Every candidate key is tried on every encrypted table footer; the first
/// candidate that validates the most footers wins. It fails when there is no
/// candidate, or when there are encrypted table files and the best candidate
/// validates none of them.
pub fn recover_key(files: &Vec<DbFile>, manifest_name: &str, current: &Option<Vec<u8>>) -> (r: Result<KeyRecovery, ConversionError>)
    requires
        tails_ok(files@),
    ensures
        recovery_spec(files@, manifest_name@, opt_view(*current), r),
{
    let ghost cur = opt_view(*current);
    let mut candidates: Vec<Vec<u8>> = Vec::new();
    match current_key(manifest_name, current) {
        Some(k) => {
            proof {
                let enc = cur.unwrap();
                let plain = encode_utf8(manifest_name@.push('\n'));
                lemma_unit_nonempty(Seq::new(plain.len(), |i: int| enc[i + 4] ^ plain[i]));
            }
            candidates.push(k);
        },
        None => {},
    }
    assert(candidates@.map_values(|v: Vec<u8>| v@) + ldb_keys(files@) =~= key_candidates(files@, manifest_name@, cur));
    let mut encrypted_ldb: usize = 0;
    let mut i: usize = 0;
    assert(files@.skip(0) =~= files@);
    while i < files.len()
        invariant
            i <= files@.len(),
            encrypted_ldb <= i,
            tails_ok(files@),
            forall|j: int| 0 <= j < candidates@.len() ==> (#[trigger] candidates@[j])@.len() > 0,
            candidates@.map_values(|v: Vec<u8>| v@) + ldb_keys(files@.skip(i as int))
                == key_candidates(files@, manifest_name@, cur),
            encrypted_ldb_count(files@) == encrypted_ldb + encrypted_ldb_count(files@.skip(i as int)),
        decreases files@.len() - i,
    {
        let ghost before = candidates@.map_values(|v: Vec<u8>| v@);
        assert(files@.skip(i as int).drop_first() =~= files@.skip(i + 1));
        let f = &files[i];
        if is_encrypted_ldb_exec(f) {
            encrypted_ldb += 1;
            match footer_key_of(f.size, &f.tail) {
                Some(k) => {
                    candidates.push(k);
                    assert(candidates@.map_values(|v: Vec<u8>| v@) =~= before.push(k@));
                    assert(before.push(k@) + ldb_keys(files@.skip(i + 1)) =~= before + (seq![k@] + ldb_keys(
                        files@.skip(i + 1),
                    )));
                },
                None => {},
            }
        }
        i += 1;
    }
    assert(files@.skip(files@.len() as int) =~= Seq::<DbFile>::empty());
    let ghost cands = key_candidates(files@, manifest_name@, cur);
    assert(candidates@.map_values(|v: Vec<u8>| v@) =~= cands);
    if candidates.len() == 0 {
        return Err(ConversionError::new(CODE_ERROR, "无法从 CURRENT 或 .ldb footer 恢复网易 XOR 密钥".to_owned()));
    }
    let mut best: usize = 0;
    let mut best_valid: usize = count_valid(files, &candidates[0]);
    let mut k: usize = 1;
    while k < candidates.len()
        invariant
            1 <= k <= candidates@.len(),
            best < k,
            candidates@.map_values(|v: Vec<u8>| v@) == cands,
            tails_ok(files@),
            forall|j: int| 0 <= j < candidates@.len() ==> (#[trigger] candidates@[j])@.len() > 0,
            best_valid as int == valid_footers(files@, cands[best as int]),
            forall|j: int| 0 <= j < k ==> valid_footers(files@, #[trigger] cands[j]) <= best_valid,
            forall|j: int| 0 <= j < best ==> valid_footers(files@, #[trigger] cands[j]) < best_valid,
        decreases candidates@.len() - k,
    {
        let v = count_valid(files, &candidates[k]);
        assert(cands[k as int] == candidates@[k as int]@);
        if v > best_valid {
            best_valid = v;
            best = k;
        }
        k += 1;
    }
    assert(is_best(files@, cands, best as int));
    if encrypted_ldb > 0 && best_valid == 0 {
        let r = Err(ConversionError::new(CODE_ERROR, "候选密钥无法通过任何 LevelDB footer 校验".to_owned()));
        assert(recovery_outcome(files@, cands, best as int, r));
        return r;
    }
    let key = candidates[best].clone();
    assert(key@ =~= candidates@[best as int]@);
    let r = Ok(KeyRecovery { key, encrypted_ldb, valid_footers: best_valid });
    assert(recovery_outcome(files@, cands, best as int, r));
    r
}

// ----- the cyclic XOR -----

/// `buf` XORed with `key` used cyclically from offset `position`.
pub open spec fn xor_cycled(buf: Seq<u8>, key: Seq<u8>, position: int) -> Seq<u8> {
    Seq::new(buf.len(), |i: int| buf[i] ^ key[(position + i) % key.len() as int])
}

proof fn lemma_mod_step(a: int, t: int, m: int)
    requires
        a >= 0,
        t >= 0,
        m > 0,
        a % m + t <= m,
    ensures
        (a + t) % m == (if a % m + t == m { 0 } else { a % m + t }),
{
    let q = a / m;
    let r = a % m;
    vstd::arithmetic::div_mod::lemma_fundamental_div_mod(a, m);
    vstd::arithmetic::div_mod::lemma_mod_pos_bound(a, m);
    assert(m * q == q * m) by (nonlinear_arith);
    if r + t < m {
        vstd::arithmetic::div_mod::lemma_fundamental_div_mod_converse(a + t, m, q, r + t);
    } else {
        assert(q * m + m == (q + 1) * m) by (nonlinear_arith);
        vstd::arithmetic::div_mod::lemma_fundamental_div_mod_converse(a + t, m, q + 1, 0);
    }
}

/// Eight bytes read as a big-endian word.
pub open spec fn pack8(b: Seq<u8>, i: int) -> u64 {
    ((b[i] as u64) << 56u64) | ((b[i + 1] as u64) << 48u64) | ((b[i + 2] as u64) << 40u64) | ((b[i + 3] as u64)
        << 32u64) | ((b[i + 4] as u64) << 24u64) | ((b[i + 5] as u64) << 16u64) | ((b[i + 6] as u64) << 8u64) | (b[i
        + 7] as u64)
}

proof fn lemma_xor_packed(a: Seq<u8>, i: int, b: Seq<u8>, j: int)
    requires
        0 <= i && i + 8 <= a.len(),
        0 <= j && j + 8 <= b.len(),
    ensures
        ({
            let x = pack8(a, i) ^ pack8(b, j);
            &&& ((x >> 56u64) as u8) == a[i] ^ b[j]
            &&& ((x >> 48u64) as u8) == a[i + 1] ^ b[j + 1]
            &&& ((x >> 40u64) as u8) == a[i + 2] ^ b[j + 2]
            &&& ((x >> 32u64) as u8) == a[i + 3] ^ b[j + 3]
            &&& ((x >> 24u64) as u8) == a[i + 4] ^ b[j + 4]
            &&& ((x >> 16u64) as u8) == a[i + 5] ^ b[j + 5]
            &&& ((x >> 8u64) as u8) == a[i + 6] ^ b[j + 6]
            &&& (x as u8) == a[i + 7] ^ b[j + 7]
        }),
{
    let (a0, a1, a2, a3, a4, a5, a6, a7) = (a[i], a[i + 1], a[i + 2], a[i + 3], a[i + 4], a[i + 5], a[i + 6], a[i + 7]);
    let (b0, b1, b2, b3, b4, b5, b6, b7) = (b[j], b[j + 1], b[j + 2], b[j + 3], b[j + 4], b[j + 5], b[j + 6], b[j + 7]);
    assert(({
        let x = (((a0 as u64) << 56u64) | ((a1 as u64) << 48u64) | ((a2 as u64) << 40u64) | ((a3 as u64) << 32u64)
            | ((a4 as u64) << 24u64) | ((a5 as u64) << 16u64) | ((a6 as u64) << 8u64) | (a7 as u64)) ^ (((b0 as u64)
            << 56u64) | ((b1 as u64) << 48u64) | ((b2 as u64) << 40u64) | ((b3 as u64) << 32u64) | ((b4 as u64)
            << 24u64) | ((b5 as u64) << 16u64) | ((b6 as u64) << 8u64) | (b7 as u64));
        &&& ((x >> 56u64) as u8) == a0 ^ b0
        &&& ((x >> 48u64) as u8) == a1 ^ b1
        &&& ((x >> 40u64) as u8) == a2 ^ b2
        &&& ((x >> 32u64) as u8) == a3 ^ b3
        &&& ((x >> 24u64) as u8) == a4 ^ b4
        &&& ((x >> 16u64) as u8) == a5 ^ b5
        &&& ((x >> 8u64) as u8) == a6 ^ b6
        &&& (x as u8) == a7 ^ b7
    })) by (bit_vector);
}

fn load_word(b: &[u8], i: usize) -> (r: u64)
    requires
        i + 8 <= b.len(),
    ensures
        r == pack8(b@, i as int),
{
    ((b[i] as u64) << 56u64) | ((b[i + 1] as u64) << 48u64) | ((b[i + 2] as u64) << 40u64) | ((b[i + 3] as u64)
        << 32u64) | ((b[i + 4] as u64) << 24u64) | ((b[i + 5] as u64) << 16u64) | ((b[i + 6] as u64) << 8u64) | (b[i
        + 7] as u64)
}

/// Whether `buf` holds `orig` XORed cyclically with `key` from `position`
/// before index `done`, and `orig` unchanged from there on.
pub open spec fn xored_up_to(buf: Seq<u8>, orig: Seq<u8>, key: Seq<u8>, position: int, done: int) -> bool {
    &&& buf.len() == orig.len()
    &&& forall|j: int| 0 <= j < done ==> #[trigger] buf[j] == orig[j] ^ key[(position + j) % key.len() as int]
    &&& forall|j: int| done <= j < buf.len() ==> #[trigger] buf[j] == orig[j]
}

/// XORs `buffer` in place with `key` used cyclically, where `position` is
/// the plain offset of the buffer's first byte. A key whose length is a
/// multiple of 8 is applied a 64-bit word at a time once the key phase is
/// aligned; the result is the same as byte by byte. An empty key leaves the
/// buffer unchanged.
pub fn xor_slice(buffer: &mut [u8], key: &[u8], position: u64)
    ensures
        final(buffer)@ == (if key@.len() == 0 { old(buffer)@ } else { xor_cycled(old(buffer)@, key@, position as int) }),
{
    if key.len() == 0 {
        return;
    }
    let ghost orig = buffer@;
    let ghost kl = key@.len() as int;
    let key_len = key.len();
    let len = buffer.len();
    if key_len % 8 != 0 {
        let mut pos = (position % key_len as u64) as usize;
        let mut index: usize = 0;
        while index < len
            invariant
                len == buffer@.len(),
                key_len == kl,
                kl == key@.len(),
                kl > 0,
                pos == (position + index) % kl,
                xored_up_to(buffer@, orig, key@, position as int, index as int),
            decreases len - index,
        {
            proof {
                vstd::arithmetic::div_mod::lemma_mod_pos_bound(position + index, kl);
            }
            let kb = key[pos];
            let bb = buffer[index];
            buffer[index] = bb ^ kb;
            proof {
                lemma_mod_step(position + index, 1, kl);
            }
            pos = if pos + 1 == key_len { 0 } else { pos + 1 };
            index += 1;
        }
        assert(buffer@ =~= xor_cycled(orig, key@, position as int));
        return;
    }
    let mut words: Vec<u64> = Vec::new();
    let block_words = key_len / 8;
    let mut w: usize = 0;
    while w < block_words
        invariant
            block_words * 8 == key_len,
            key_len == key@.len(),
            w <= block_words,
            words@.len() == w,
            forall|k: int| 0 <= k < w ==> #[trigger] words@[k] == pack8(key@, 8 * k),
        decreases block_words - w,
    {
        words.push(load_word(key, w * 8));
        w += 1;
    }
    let mut pos = (position % key_len as u64) as usize;
    let mut index: usize = 0;
    proof {
        vstd::arithmetic::div_mod::lemma_mod_pos_bound(position as int, kl);
        vstd::arithmetic::div_mod::lemma_small_mod(pos as nat, kl as nat);
    }
    while index < len && pos % 8 != 0
        invariant
            len == buffer@.len(),
            key_len == kl,
            kl == key@.len(),
            kl > 0,
            kl % 8 == 0,
            index <= len,
            pos <= kl,
            (pos as int) % kl == (position + index) % kl,
            pos < kl ==> pos == (position + index) % kl,
            xored_up_to(buffer@, orig, key@, position as int, index as int),
        decreases len - index,
    {
        assert(pos < kl) by {
            if pos == kl {
                assert(pos % 8 == 0);
            }
        }
        buffer[index] = buffer[index] ^ key[pos];
        proof {
            lemma_mod_step(position + index, 1, kl);
            if pos + 1 == kl {
                vstd::arithmetic::div_mod::lemma_mod_self_0(kl);
            } else {
                vstd::arithmetic::div_mod::lemma_small_mod((pos + 1) as nat, kl as nat);
            }
        }
        pos += 1;
        index += 1;
    }
    if index == len {
        assert(buffer@ =~= xor_cycled(orig, key@, position as int));
        return;
    }
    proof {
        if pos == kl {
            vstd::arithmetic::div_mod::lemma_mod_self_0(kl);
        } else {
            vstd::arithmetic::div_mod::lemma_small_mod(pos as nat, kl as nat);
        }
    }
    pos = pos % key_len;
    let mut word_index = pos / 8;
    let aligned = len - index;
    let full = aligned - aligned % 8;
    let mut c: usize = 0;
    while c < full / 8
        invariant
            len == buffer@.len(),
            key_len == kl,
            kl == key@.len(),
            kl > 0,
            block_words * 8 == kl,
            words@.len() == block_words,
            forall|k: int| 0 <= k < block_words ==> #[trigger] words@[k] == pack8(key@, 8 * k),
            index + full <= len,
            full % 8 == 0,
            c <= full / 8,
            word_index < block_words,
            word_index * 8 == (position + index + 8 * c) % kl,
            xored_up_to(buffer@, orig, key@, position as int, index + 8 * c),
        decreases full / 8 - c,
    {
        assert(8 * c + 8 <= full) by (nonlinear_arith)
            requires
                c < full / 8,
                full % 8 == 0,
        {
        }
        assert(8 * word_index + 8 <= kl) by (nonlinear_arith)
            requires
                word_index < block_words,
                block_words * 8 == kl,
        {
        }
        let at = index + 8 * c;
        let ghost before = buffer@;
        let current = load_word(buffer, at);
        let mixed = current ^ words[word_index];
        proof {
            lemma_xor_packed(before, at as int, key@, 8 * word_index as int);
        }
        buffer[at] = (mixed >> 56u64) as u8;
        buffer[at + 1] = (mixed >> 48u64) as u8;
        buffer[at + 2] = (mixed >> 40u64) as u8;
        buffer[at + 3] = (mixed >> 32u64) as u8;
        buffer[at + 4] = (mixed >> 24u64) as u8;
        buffer[at + 5] = (mixed >> 16u64) as u8;
        buffer[at + 6] = (mixed >> 8u64) as u8;
        buffer[at + 7] = mixed as u8;
        proof {
            let base = (position + at) as int;
            assert forall|j: int| 0 <= j < at + 8 implies #[trigger] buffer@[j] == orig[j] ^ key@[(position + j)
                % kl] by {
                if j >= at {
                    let t = j - at;
                    lemma_mod_step(base, t, kl);
                    assert((position + j) % kl == 8 * word_index + t);
                }
            }
            lemma_mod_step(base, 8, kl);
        }
        word_index = if word_index + 1 == block_words { 0 } else { word_index + 1 };
        c += 1;
    }
    assert(8 * c == full) by (nonlinear_arith)
        requires
            c >= full / 8,
            c <= full / 8,
            full % 8 == 0,
    {
    }
    assert(8 * word_index + 8 <= kl) by (nonlinear_arith)
        requires
            word_index < block_words,
            block_words * 8 == kl,
    {
    }
    assert(aligned - full < 8);
    let tail_start = word_index * 8;
    let mut offset: usize = 0;
    while offset < len - (index + full)
        invariant
            len == buffer@.len(),
            key_len == kl,
            kl == key@.len(),
            kl > 0,
            index + full <= len,
            offset <= len - (index + full),
            len - (index + full) < 8,
            tail_start + 8 <= kl,
            tail_start == (position + index + full) % kl,
            xored_up_to(buffer@, orig, key@, position as int, index + full + offset),
        decreases len - (index + full) - offset,
    {
        let at = index + full + offset;
        proof {
            lemma_mod_step((position + index + full) as int, offset as int, kl);
        }
        buffer[at] = buffer[at] ^ key[tail_start + offset];
        offset += 1;
    }
    assert(buffer@ =~= xor_cycled(orig, key@, position as int));
}


// ----- choosing the manifest -----

/// The number of a manifest file name `MANIFEST-<n>`, as `str::parse::<u64>`
/// reads it.
pub open spec fn manifest_number_of(name: Seq<char>) -> Option<int> {
    if has_prefix(name, "MANIFEST-"@) {
        parse_unsigned(name.skip("MANIFEST-"@.len() as int), u64::MAX as int)
    } else {
        None
    }
}

/// The number of a manifest file name, if it has one.
pub fn manifest_number(name: &str) -> (r: Option<u64>)
    ensures
        match manifest_number_of(name@) {
            Some(v) => r == Some(v as u64),
            None => r is None,
        },
{
    if !starts_with(name, "MANIFEST-") {
        return None;
    }
    proof {
        reveal_strlit("MANIFEST-");
    }
    let v = chars_of(name);
    let mut rest: Vec<char> = Vec::new();
    let mut i: usize = 9;
    while i < v.len()
        invariant
            9 <= i <= v@.len(),
            v@ == name@,
            rest@ == name@.subrange(9, i as int),
        decreases v@.len() - i,
    {
        rest.push(v[i]);
        assert(name@.subrange(9, i as int).push(name@[i as int]) =~= name@.subrange(9, i + 1));
        i += 1;
    }
    assert(rest@ =~= name@.skip(9));
    let suffix = string_of(&rest);
    parse_u64(suffix.as_str())
}

/// The key by which manifests are ordered: their number, or 0.
pub open spec fn manifest_key(name: Seq<char>) -> int {
    match manifest_number_of(name) {
        Some(v) => v,
        None => 0,
    }
}

/// The newest manifest among `names`: the `MANIFEST-` name with the largest
/// number, the last of them in `names` when several share it.
pub open spec fn newest_manifest(names: Seq<Seq<char>>) -> Option<Seq<char>>
    decreases names.len(),
{
    if names.len() == 0 {
        None
    } else {
        let prev = newest_manifest(names.drop_last());
        let last = names.last();
        if has_prefix(last, "MANIFEST-"@) && (prev is None || manifest_key(last) >= manifest_key(prev.unwrap())) {
            Some(last)
        } else {
            prev
        }
    }
}

/// The text of `CURRENT` when it is a plain UTF-8 file.
pub open spec fn current_text(current: Option<Seq<u8>>) -> Option<Seq<char>> {
    match current {
        Some(b) => if has_header(b, netease_header()) || !valid_utf8(b) {
            None
        } else {
            Some(decode_utf8(b))
        },
        None => None,
    }
}


/// The manifest the normalised database will name: the one that a plain
/// `CURRENT` names, when it is among the files, else the newest manifest;
/// an error when there is no manifest at all.
pub open spec fn chosen_manifest(names: Seq<Seq<char>>, current: Option<Seq<u8>>) -> Result<Seq<char>, Seq<char>> {
    match newest_manifest(names) {
        None => Err("LevelDB 缺少 MANIFEST-* 文件"@),
        Some(newest) => match current_text(current) {
            Some(t) => if trimmed(t).len() > 0 && names.contains(trimmed(t)) {
                Ok(trimmed(t))
            } else {
                Ok(newest)
            },
            None => Ok(newest),
        },
    }
}

/// `String::from_utf8`: the characters of `bytes` when they are valid UTF-8.
#[verifier::external_body]
fn decode_strict(bytes: &[u8]) -> (r: Option<String>)
    ensures
        match r {
            Some(s) => valid_utf8(bytes@) && s@ == decode_utf8(bytes@),
            None => !valid_utf8(bytes@),
        },
{
    String::from_utf8(bytes.to_vec()).ok()
}


fn contains_name(names: &Vec<String>, name: &str) -> (r: bool)
    ensures
        r == names@.map_values(|s: String| s@).contains(name@),
{
    let ghost all = names@.map_values(|s: String| s@);
    let mut i: usize = 0;
    while i < names.len()
        invariant
            i <= names@.len(),
            all == names@.map_values(|s: String| s@),
            forall|j: int| 0 <= j < i ==> all[j] != name@,
        decreases names@.len() - i,
    {
        if str_eq(names[i].as_str(), name) {
            assert(all[i as int] == name@);
            return true;
        }
        i += 1;
    }
    false
}

/// Chooses the manifest for the normalised database. `names` are the names
/// of the database files in order; `current` the bytes of `CURRENT`, when
/// there is such a file and it could be read.
pub fn choose_manifest_name(names: &Vec<String>, current: &Option<Vec<u8>>) -> (r: Result<String, ConversionError>)
    ensures
        match chosen_manifest(names@.map_values(|s: String| s@), opt_view(*current)) {
            Ok(n) => r matches Ok(s) && s@ == n,
            Err(m) => fails_with(r, m),
        },
{
    let ghost all = names@.map_values(|s: String| s@);
    let mut best: Option<usize> = None;
    let mut best_key: u64 = 0;
    let mut i: usize = 0;
    while i < names.len()
        invariant
            i <= names@.len(),
            all == names@.map_values(|s: String| s@),
            match best {
                Some(b) => b < i && newest_manifest(all.take(i as int)) == Some(all[b as int]) && best_key
                    == manifest_key(all[b as int]),
                None => newest_manifest(all.take(i as int)) is None,
            },
        decreases names@.len() - i,
    {
        assert(all.take(i + 1).drop_last() =~= all.take(i as int));
        assert(all.take(i + 1).last() == all[i as int]);
        let name = names[i].as_str();
        assert(name@ == all[i as int]);
        if starts_with(name, "MANIFEST-") {
            let key: u64 = match manifest_number(name) {
                Some(v) => v,
                None => 0,
            };
            proof {
                lemma_parse_unsigned_range(all[i as int].skip("MANIFEST-"@.len() as int), u64::MAX as int);
            }
            assert(key as int == manifest_key(all[i as int]));
            let take = match best {
                None => true,
                Some(_) => key >= best_key,
            };
            if take {
                best = Some(i);
                best_key = key;
            }
        }
        i += 1;
    }
    assert(all.take(names@.len() as int) =~= all);
    let newest = match best {
        None => {
            return Err(ConversionError::new(CODE_ERROR, "LevelDB 缺少 MANIFEST-* 文件".to_owned()));
        },
        Some(b) => b,
    };
    if let Some(bytes) = current {
        let header = netease_header_bytes();
        if !header_matches(bytes, &header) {
            if let Some(text) = decode_strict(bytes.as_slice()) {
                let t = trim(text.as_str());
                if !t.as_str().is_empty() && contains_name(names, t.as_str()) {
                    return Ok(t);
                }
            }
        }
    }
    Ok(names[newest].clone())
}


// ----- preparing a Bedrock world -----

/// The message that refuses a world encrypted with the legacy AES scheme.
pub open spec fn legacy_aes_message() -> Seq<char> {
    "检测到旧版 90 1D 30 01 AES-CFB8 加密。密钥不在存档中，无法离线恢复。请使用仍能打开该世界的网易客户端重新导出，或提供对应账号 API 返回的密钥。"@
}

/// Only a Bedrock world that is not encrypted with the legacy AES scheme can
/// be prepared.
pub fn check_preparable(world_type: WorldType) -> (r: Result<(), ConversionError>)
    ensures
        world_type == WorldType::Java ==> fails_with(r, "内部错误：尝试把 Java 世界作为 Bedrock 解密"@),
        world_type == WorldType::NeteaseBedrockLegacyAes ==> fails_with(r, legacy_aes_message()),
        world_type == WorldType::NeteaseBedrock || world_type == WorldType::Bedrock ==> r is Ok,
{
    match world_type {
        WorldType::Java => Err(ConversionError::new(CODE_ERROR, "内部错误：尝试把 Java 世界作为 Bedrock 解密".to_owned())),
        WorldType::NeteaseBedrockLegacyAes => Err(ConversionError::new(
            CODE_ERROR,
            "检测到旧版 90 1D 30 01 AES-CFB8 加密。密钥不在存档中，无法离线恢复。请使用仍能打开该世界的网易客户端重新导出，或提供对应账号 API 返回的密钥。".to_owned(),
        )),
        _ => Ok(()),
    }
}

/// The message when a database file carries the legacy AES header.
pub open spec fn mixed_legacy_message() -> Seq<char> {
    "数据库中混有旧版 AES-CFB8 文件，不能安全解密"@
}

/// Some database file begins with the legacy AES header.
pub open spec fn any_legacy_file(heads: Seq<Vec<u8>>) -> bool {
    exists|i: int| 0 <= i < heads.len() && has_header((#[trigger] heads[i])@, legacy_aes_header())
}

/// Refuses a database in which any file, judged by its first bytes, is
/// encrypted with the legacy AES scheme: its key is not in the world.
pub fn check_legacy_files(heads: &Vec<Vec<u8>>) -> (r: Result<(), ConversionError>)
    ensures
        r is Err <==> any_legacy_file(heads@),
        r is Err ==> fails_with(r, mixed_legacy_message()),
{
    let legacy = legacy_aes_header_bytes();
    let mut i: usize = 0;
    while i < heads.len()
        invariant
            i <= heads@.len(),
            legacy@ == legacy_aes_header(),
            forall|k: int| 0 <= k < i ==> !has_header((#[trigger] heads@[k])@, legacy_aes_header()),
        decreases heads@.len() - i,
    {
        if header_matches(&heads[i], &legacy) {
            let m = "数据库中混有旧版 AES-CFB8 文件，不能安全解密";
            proof {
                reveal_strlit("数据库中混有旧版 AES-CFB8 文件，不能安全解密");
            }
            return crate::error::fail(m);
        }
        i += 1;
    }
    Ok(())
}

/// Where the prepared world's `level.dat` is copied from.
#[derive(Debug, Clone, Copy, PartialEq, Eq, Structural)]
pub enum LevelSource {
    /// The world's root directory.
    Root,
    /// The database directory.
    Database,
}

/// The message when neither place holds a `level.dat`.
pub open spec fn missing_level_message() -> Seq<char> {
    "基岩世界缺少 level.dat（根目录和数据库目录均未找到）"@
}

/// Picks the `level.dat` to copy: the root's when it has one, else the
/// database directory's; a world with neither is refused.
pub fn level_dat_source(in_root: bool, in_database: bool) -> (r: Result<LevelSource, ConversionError>)
    ensures
        in_root ==> r == Ok::<LevelSource, ConversionError>(LevelSource::Root),
        !in_root && in_database ==> r == Ok::<LevelSource, ConversionError>(LevelSource::Database),
        !in_root && !in_database ==> fails_with(r, missing_level_message()),
{
    if in_root {
        Ok(LevelSource::Root)
    } else if in_database {
        Ok(LevelSource::Database)
    } else {
        let m = "基岩世界缺少 level.dat（根目录和数据库目录均未找到）";
        proof {
            reveal_strlit("基岩世界缺少 level.dat（根目录和数据库目录均未找到）");
        }
        crate::error::fail(m)
    }
}

/// A LevelDB file name, by its upper-cased form: a manifest, `CURRENT`,
/// `LOCK`, a table or a log.
pub open spec fn is_db_artifact(upper: Seq<char>) -> bool {
    has_prefix(upper, "MANIFEST-"@) || upper == "CURRENT"@ || upper == "LOCK"@ || has_suffix(upper, ".LDB"@)
        || has_suffix(upper, ".LOG"@)
}

/// Whether a file name is a LevelDB file (see `is_db_artifact`).
pub fn is_db_artifact_name(name: &str) -> (r: bool)
    ensures
        r == is_db_artifact(spec_uppercase(name@)),
{
    let upper = to_uppercase(name);
    let u = upper.as_str();
    starts_with(u, "MANIFEST-") || str_eq(u, "CURRENT") || str_eq(u, "LOCK") || ends_with(u, ".LDB") || ends_with(
        u,
        ".LOG",
    )
}

/// What happens to a database file while the database is normalised.
#[derive(Debug, Clone, Copy, PartialEq, Eq, Structural)]
pub enum DbAction {
    /// Left out: `level.dat`, `.DS_Store` and `LOCK` are not database contents.
    Skip,
    /// Written decrypted.
    Decrypt,
    /// Copied as it is.
    Copy,
}

/// A file left out of the normalised database, by its lower-cased name.
pub open spec fn is_skipped_db_file(lower: Seq<char>) -> bool {
    lower == "level.dat"@ || lower == ".ds_store"@ || lower == "lock"@
}

/// What to do with the database file `name`: skip it, decrypt it when it
/// carries the NetEase header (which needs the key), or copy it.
pub fn db_file_action(name: &str, encrypted: bool, has_key: bool) -> (r: Result<DbAction, ConversionError>)
    ensures
        is_skipped_db_file(spec_lowercase(name@)) ==> r == Ok::<DbAction, ConversionError>(DbAction::Skip),
        !is_skipped_db_file(spec_lowercase(name@)) ==> {
            if !encrypted {
                r == Ok::<DbAction, ConversionError>(DbAction::Copy)
            } else if has_key {
                r == Ok::<DbAction, ConversionError>(DbAction::Decrypt)
            } else {
                fails_with(r, "发现加密文件但未恢复出密钥："@ + name@)
            }
        },
{
    let lower = to_lowercase(name);
    let l = lower.as_str();
    if str_eq(l, "level.dat") || str_eq(l, ".ds_store") || str_eq(l, "lock") {
        return Ok(DbAction::Skip);
    }
    if !encrypted {
        Ok(DbAction::Copy)
    } else if has_key {
        Ok(DbAction::Decrypt)
    } else {
        let mut m = "发现加密文件但未恢复出密钥：".to_owned();
        push_str(&mut m, name);
        Err(ConversionError::new(CODE_ERROR, m))
    }
}

/// The progress while database files are processed: from 13 to 30 percent.
pub open spec fn prepare_percent_of(done: int, total: int) -> int {
    13 + (17 * done) / (if total < 1 { 1 } else { total })
}

/// The progress after `done` of `total` database files.
pub fn prepare_percent(done: u64, total: u64) -> (r: i32)
    requires
        done <= total,
    ensures
        r as int == prepare_percent_of(done as int, total as int),
        13 <= r <= 30,
{
    let t: u64 = if total < 1 { 1 } else { total };
    let n: u128 = 17 * (done as u128);
    let d: u128 = t as u128;
    assert(n / d <= 17) by (nonlinear_arith)
        requires
            n == 17 * done,
            done <= d,
            d >= 1,
    {
        assert(n <= 17 * d);
    }
    let q = (n / d) as i32;
    13 + q
}

/// The stage shown while database files are processed.
pub fn prepare_stage(encrypted: bool) -> (r: &'static str)
    ensures
        encrypted ==> r@ == "解密网易 LevelDB"@,
        !encrypted ==> r@ == "规范化 Bedrock"@,
{
    if encrypted {
        "解密网易 LevelDB"
    } else {
        "规范化 Bedrock"
    }
}

/// A file of the normalised database, as the final check looks at it.
pub struct OutputFile {
    pub name: String,
    /// A regular file (not a directory).
    pub is_file: bool,
    pub size: u64,
    /// The first 4 bytes (fewer when the file is shorter).
    pub head: Vec<u8>,
    /// The last 8 bytes, or empty when they could not be read.
    pub tail: Vec<u8>,
}

/// A table file ends with the plain footer magic.
pub open spec fn plain_footer(size: int, tail: Seq<u8>) -> bool {
    size >= 8 && tail == footer_magic()
}

/// A table file of the output, by its lower-cased name.
pub open spec fn is_output_ldb(f: OutputFile) -> bool {
    f.is_file && has_suffix(spec_lowercase(f.name@), ".ldb"@)
}

/// The index of the first table file whose footer is not plain.
pub open spec fn first_bad_footer(files: Seq<OutputFile>, from: int) -> Option<int>
    decreases files.len() - from,
{
    if from < 0 || from >= files.len() {
        None
    } else if is_output_ldb(files[from]) && !plain_footer(files[from].size as int, files[from].tail@) {
        Some(from)
    } else {
        first_bad_footer(files, from + 1)
    }
}

/// The number of table files among `files`.
pub open spec fn output_ldb_count(files: Seq<OutputFile>) -> int
    decreases files.len(),
{
    if files.len() == 0 {
        0
    } else {
        output_ldb_count(files.drop_last()) + if is_output_ldb(files.last()) { 1int } else { 0int }
    }
}

/// The verdict on a normalised database: every table file ends with the plain
/// footer, and no file still carries the NetEase header. On success, the
/// number of table files checked.
pub open spec fn normalized_verdict(files: Seq<OutputFile>) -> Result<int, Seq<char>> {
    match first_bad_footer(files, 0) {
        Some(i) => Err("解密后的 LevelDB footer 校验失败："@ + files[i].name@),
        None => if exists|i: int| 0 <= i < files.len() && has_header(#[trigger] files[i].head@, netease_header()) {
            Err("规范化后的数据库仍残留网易加密头"@)
        } else {
            Ok(output_ldb_count(files))
        },
    }
}

/// Checks a normalised database directory (see `normalized_verdict`).
pub fn check_normalized(files: &Vec<OutputFile>) -> (r: Result<usize, ConversionError>)
    ensures
        match normalized_verdict(files@) {
            Ok(n) => r matches Ok(k) && k == n,
            Err(m) => fails_with(r, m),
        },
{
    let footer = leveldb_footer();
    let mut validated: usize = 0;
    let mut i: usize = 0;
    while i < files.len()
        invariant
            i <= files@.len(),
            validated <= i,
            footer@ == footer_magic(),
            validated as int == output_ldb_count(files@.take(i as int)),
            first_bad_footer(files@, 0) == first_bad_footer(files@, i as int),
        decreases files@.len() - i,
    {
        let f = &files[i];
        assert(files@.take(i + 1).drop_last() =~= files@.take(i as int));
        let lower = to_lowercase(f.name.as_str());
        let is_ldb = f.is_file && ends_with(lower.as_str(), ".ldb");
        if is_ldb {
            let plain = f.size >= 8 && bytes_eq(&f.tail, &footer);
            if !plain {
                let mut m = "解密后的 LevelDB footer 校验失败：".to_owned();
                push_str(&mut m, f.name.as_str());
                return Err(ConversionError::new(CODE_ERROR, m));
            }
            validated += 1;
        }
        i += 1;
    }
    assert(files@.take(files@.len() as int) =~= files@);
    let header = netease_header_bytes();
    let mut j: usize = 0;
    while j < files.len()
        invariant
            j <= files@.len(),
            header@ == netease_header(),
            first_bad_footer(files@, 0) is None,
            forall|x: int| 0 <= x < j ==> !has_header(#[trigger] files@[x].head@, netease_header()),
        decreases files@.len() - j,
    {
        if header_matches(&files[j].head, &header) {
            assert(has_header(files@[j as int].head@, netease_header()));
            return Err(ConversionError::new(CODE_ERROR, "规范化后的数据库仍残留网易加密头".to_owned()));
        }
        j += 1;
    }
    Ok(validated)
}


/// What happens to an entry met while the world's other files are copied.
#[derive(Debug, Clone, Copy, PartialEq, Eq, Structural)]
pub enum MetaAction {
    /// Left alone.
    Skip,
    /// A directory to create and walk into.
    Descend,
    /// A file to copy.
    Copy,
}

/// Whether a component is one of those never copied.
pub open spec fn is_excluded_component(c: Seq<char>) -> bool {
    c == "_conversion"@ || c == "__MACOSX"@ || c == ".git"@
}

/// What to do with `path`, met while the files of the world at `root` other
/// than its database are copied to `output`: the database directory, the
/// output and what lies under it, paths through an excluded component, the
/// LevelDB files directly in the root and `level.dat` files are left alone.
pub open spec fn metadata_action_of(
    path: Seq<Seq<char>>,
    root: Seq<Seq<char>>,
    db: Seq<Seq<char>>,
    output: Seq<Seq<char>>,
    is_dir: bool,
) -> Result<MetaAction, Seq<char>> {
    if path == db || is_prefix_of(output, path) {
        Ok(MetaAction::Skip)
    } else if !is_prefix_of(root, path) {
        Err("内部路径错误"@)
    } else if exists|i: int| root.len() <= i < path.len() && is_excluded_component(#[trigger] path[i]) {
        Ok(MetaAction::Skip)
    } else if is_dir {
        Ok(MetaAction::Descend)
    } else {
        let name = file_name_of(path);
        let lower = spec_lowercase(name);
        if path.len() == root.len() + 1 && is_db_artifact(spec_uppercase(name)) {
            Ok(MetaAction::Skip)
        } else if lower == "level.dat"@ || lower == "level.dat_old"@ {
            Ok(MetaAction::Skip)
        } else {
            Ok(MetaAction::Copy)
        }
    }
}

fn excluded_component(c: &str) -> (r: bool)
    ensures
        r == is_excluded_component(c@),
{
    str_eq(c, "_conversion") || str_eq(c, "__MACOSX") || str_eq(c, ".git")
}

/// Decides what to do with an entry while the world's files are copied (see
/// `metadata_action_of`).
pub fn metadata_action(path: &Vec<String>, root: &Vec<String>, db: &Vec<String>, output: &Vec<String>, is_dir: bool) -> (r: Result<
    MetaAction,
    ConversionError,
>)
    ensures
        match metadata_action_of(parts(path@), parts(root@), parts(db@), parts(output@), is_dir) {
            Ok(a) => r == Ok::<MetaAction, ConversionError>(a),
            Err(m) => fails_with(r, m),
        },
{
    let same_db = path_starts_with(path, db) && path.len() == db.len();
    proof {
        if parts(path@) == parts(db@) {
            assert(parts(path@).subrange(0, parts(db@).len() as int) =~= parts(db@));
        }
        if same_db {
            assert(parts(path@) =~= parts(db@));
        }
    }
    if same_db || path_starts_with(path, output) {
        return Ok(MetaAction::Skip);
    }
    if !path_starts_with(path, root) {
        return Err(ConversionError::new(CODE_ERROR, "内部路径错误".to_owned()));
    }
    let mut i = root.len();
    while i < path.len()
        invariant
            root@.len() <= i <= path@.len(),
            parts(path@) != parts(db@),
            !is_prefix_of(parts(output@), parts(path@)),
            is_prefix_of(parts(root@), parts(path@)),
            forall|j: int| root@.len() <= j < i ==> !is_excluded_component(#[trigger] parts(path@)[j]),
        decreases path@.len() - i,
    {
        if excluded_component(path[i].as_str()) {
            assert(is_excluded_component(parts(path@)[i as int]));
            return Ok(MetaAction::Skip);
        }
        i += 1;
    }
    if is_dir {
        return Ok(MetaAction::Descend);
    }
    let name = file_name(path);
    if path.len() - root.len() == 1 && is_db_artifact_name(name.as_str()) {
        return Ok(MetaAction::Skip);
    }
    let lower = to_lowercase(name.as_str());
    if str_eq(lower.as_str(), "level.dat") || str_eq(lower.as_str(), "level.dat_old") {
        return Ok(MetaAction::Skip);
    }
    Ok(MetaAction::Copy)
}


// ----- laws -----

/// Decryption undoes encryption: XORing twice with the same key from the
/// same offset gives the bytes back.
pub proof fn law_xor_involution(buf: Seq<u8>, key: Seq<u8>, position: int)
    requires
        key.len() > 0,
        position >= 0,
    ensures
        xor_cycled(xor_cycled(buf, key, position), key, position) == buf,
{
    let once = xor_cycled(buf, key, position);
    let twice = xor_cycled(once, key, position);
    assert forall|i: int| 0 <= i < buf.len() implies twice[i] == buf[i] by {
        let a = buf[i];
        let k = key[(position + i) % key.len() as int];
        assert((a ^ k) ^ k == a) by (bit_vector);
    }
    assert(twice =~= buf);
}

/// Decrypting in pieces is decrypting at once: XORing the first `k` bytes
/// from `position` and the rest from `position + k` gives what one pass over
/// the whole buffer from `position` gives. Files are decrypted chunk by
/// chunk on this account.
pub proof fn law_xor_split(buf: Seq<u8>, key: Seq<u8>, position: int, k: int)
    requires
        key.len() > 0,
        position >= 0,
        0 <= k <= buf.len(),
    ensures
        xor_cycled(buf.take(k), key, position) + xor_cycled(buf.skip(k), key, position + k) == xor_cycled(
            buf,
            key,
            position,
        ),
{
    let joined = xor_cycled(buf.take(k), key, position) + xor_cycled(buf.skip(k), key, position + k);
    let whole = xor_cycled(buf, key, position);
    assert forall|i: int| 0 <= i < buf.len() implies joined[i] == whole[i] by {
        if i >= k {
            assert(buf.skip(k)[i - k] == buf[i]);
            assert(position + k + (i - k) == position + i);
        }
    }
    assert(joined =~= whole);
}

/// The key taken from `CURRENT` decrypts `CURRENT`: used cyclically from
/// offset 0 over the bytes after the 4-byte header, it turns them into the
/// manifest's name followed by a newline, which is what `CURRENT` holds.
pub proof fn law_current_key_decrypts_current(manifest: Seq<char>, enc: Seq<u8>)
    requires
        current_candidate(manifest, Some(enc)) is Some,
    ensures
        xor_cycled(enc.skip(4), current_candidate(manifest, Some(enc)).unwrap(), 0) == encode_utf8(manifest.push('\n')),
{
    let plain = encode_utf8(manifest.push('\n'));
    let raw = Seq::new(plain.len(), |i: int| enc[i + 4] ^ plain[i]);
    let unit = repeating_unit(raw);
    assert(current_candidate(manifest, Some(enc)) == Some(unit));
    let out = xor_cycled(enc.skip(4), unit, 0);
    assert(enc.skip(4).len() == plain.len());
    assert forall|i: int| 0 <= i < plain.len() implies out[i] == plain[i] by {
        if exists|p: int| is_shortest_period(raw, p) {
            let p = choose|p: int| is_shortest_period(raw, p);
            assert(unit == raw.take(p));
            assert(unit.len() == p);
            assert((0 + i) % unit.len() as int == i % p);
            vstd::arithmetic::div_mod::lemma_mod_pos_bound(i, p);
            if i >= p {
                assert(raw[i] == raw[i % p]);
            } else {
                vstd::arithmetic::div_mod::lemma_small_mod(i as nat, p as nat);
            }
            assert(unit[i % p] == raw[i % p]);
            assert(unit[(0 + i) % unit.len() as int] == raw[i]);
        } else {
            assert(unit == raw);
            vstd::arithmetic::div_mod::lemma_small_mod(i as nat, unit.len());
            assert((0 + i) % unit.len() as int == i);
        }
        let e = enc[i + 4];
        let q = plain[i];
        assert(enc.skip(4)[i] == e);
        assert(e ^ (e ^ q) == q) by (bit_vector);
    }
    assert(out =~= plain);
}

proof fn lemma_no_tables_no_keys(files: Seq<DbFile>)
    requires
        encrypted_ldb_count(files) == 0,
    ensures
        ldb_keys(files).len() == 0,
    decreases files.len(),
{
    if files.len() > 0 {
        lemma_count_nonneg(files.drop_first());
        lemma_no_tables_no_keys(files.drop_first());
    }
}

proof fn lemma_count_nonneg(files: Seq<DbFile>)
    ensures
        encrypted_ldb_count(files) >= 0,
    decreases files.len(),
{
    if files.len() > 0 {
        lemma_count_nonneg(files.drop_first());
    }
}

/// Without encrypted table files, key recovery succeeds exactly when
/// `CURRENT` yields a key, and the key it returns decrypts `CURRENT` to the
/// manifest's name and a newline.
pub proof fn law_recovered_key_decrypts_current(
    files: Seq<DbFile>,
    manifest: Seq<char>,
    enc: Seq<u8>,
    r: Result<KeyRecovery, ConversionError>,
)
    requires
        recovery_spec(files, manifest, Some(enc), r),
        encrypted_ldb_count(files) == 0,
        current_candidate(manifest, Some(enc)) is Some,
    ensures
        r is Ok,
        r matches Ok(k) && xor_cycled(enc.skip(4), k.key@, 0) == encode_utf8(manifest.push('\n')),
{
    lemma_no_tables_no_keys(files);
    let cands = key_candidates(files, manifest, Some(enc));
    assert(cands =~= seq![current_candidate(manifest, Some(enc)).unwrap()]);
    let j = choose|j: int| #[trigger] is_best(files, cands, j) && recovery_outcome(files, cands, j, r);
    assert(j == 0);
    law_current_key_decrypts_current(manifest, enc);
}

/// The key recovered from a table footer decrypts that footer: used
/// cyclically from the plain offset of the last 8 bytes, it turns them into
/// the footer magic.
pub proof fn law_footer_key_decrypts(size: int, tail: Seq<u8>)
    requires
        tail.len() == 8,
        footer_key(size, tail) is Some,
    ensures
        footer_matches(size, tail, footer_key(size, tail).unwrap()),
{
    let key = footer_key(size, tail).unwrap();
    let plain = size - 4;
    let r = (plain - 8) % 8;
    assert forall|i: int| 0 <= i < 8 implies #[trigger] (tail[i] ^ key[(plain - 8 + i) % key.len() as int])
        == footer_magic()[i] by {
        let k = (plain - 8 + i) % 8;
        assert(0 <= k < 8);
        assert((k - r + 8) % 8 == i) by {
            assert((plain - 8 + i) % 8 == ((plain - 8) % 8 + i) % 8) by {
                vstd::arithmetic::div_mod::lemma_add_mod_noop(plain - 8, i, 8);
                vstd::arithmetic::div_mod::lemma_small_mod(i as nat, 8);
            }
        }
        assert(key[k] == tail[i] ^ footer_magic()[i]);
        let a = tail[i];
        let m = footer_magic()[i];
        assert(a ^ (a ^ m) == m) by (bit_vector);
    }
}

/// A chosen manifest is one of the database files.
pub proof fn law_manifest_is_listed(names: Seq<Seq<char>>, current: Option<Seq<u8>>)
    requires
        chosen_manifest(names, current) is Ok,
    ensures
        chosen_manifest(names, current) matches Ok(n) && names.contains(n),
        newest_manifest(names) matches Some(m) && has_prefix(m, "MANIFEST-"@),
{
    lemma_newest_listed(names);
}

proof fn lemma_newest_listed(names: Seq<Seq<char>>)
    ensures
        newest_manifest(names) matches Some(n) ==> names.contains(n) && has_prefix(n, "MANIFEST-"@),
    decreases names.len(),
{
    if names.len() > 0 {
        lemma_newest_listed(names.drop_last());
        match newest_manifest(names) {
            Some(n) => {
                if n == names.last() {
                    assert(names[names.len() - 1] == n);
                } else {
                    let w = choose|w: int| 0 <= w < names.drop_last().len() && names.drop_last()[w] == n;
                    assert(names[w] == n);
                }
            },
            None => {},
        }
    }
}

} // verus!
