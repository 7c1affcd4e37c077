//! Paths, names and the safety rules of archive extraction and packing.
//!
//! A path is handled as the sequence of its components, as `Path::components`
//! yields them: a component that begins with `/` stands for the root or a
//! drive prefix, `.` and `..` for the current and parent directory, and any
//! other string for a name.

use crate::detect::{is_db_directory_name, legacy_aes_header, matches_db_directory, netease_header};
use crate::error::{fails_with, ConversionError, CODE_ERROR};
use crate::text::{
    chars_of, first_non_ws, last_non_ws_end, has_prefix, has_suffix, push_char, push_str, spec_uppercase, str_eq,
    string_of, to_uppercase, trim, trimmed,
};
use crate::version::{split_char, split_on};
use vstd::prelude::*;

verus! {

/// Most entries an archive may declare.
pub const MAX_ENTRIES: u64 = 1000000;

/// Most bytes an archive may unpack to: 256 GiB.
pub const MAX_UNCOMPRESSED_BYTES: u64 = 274877906944;

// ----- paths -----

pub open spec fn is_prefix_of<T>(a: Seq<T>, b: Seq<T>) -> bool {
    a.len() <= b.len() && b.subrange(0, a.len() as int) == a
}

/// Whether `a` is a leading part of `b`, component by component.
pub fn path_starts_with(b: &Vec<String>, a: &Vec<String>) -> (r: bool)
    ensures
        r == is_prefix_of(a@.map_values(|s: String| s@), b@.map_values(|s: String| s@)),
{
    let ghost av = a@.map_values(|s: String| s@);
    let ghost bv = b@.map_values(|s: String| s@);
    if a.len() > b.len() {
        return false;
    }
    let mut i: usize = 0;
    while i < a.len()
        invariant
            i <= a@.len() <= b@.len(),
            av == a@.map_values(|s: String| s@),
            bv == b@.map_values(|s: String| s@),
            forall|j: int| 0 <= j < i ==> av[j] == bv[j],
        decreases a@.len() - i,
    {
        if !str_eq(b[i].as_str(), a[i].as_str()) {
            assert(bv.subrange(0, av.len() as int)[i as int] != av[i as int]);
            return false;
        }
        i += 1;
    }
    assert(bv.subrange(0, av.len() as int) =~= av);
    true
}

/// Whether two paths have the same components.
pub fn paths_equal(a: &Vec<String>, b: &Vec<String>) -> (r: bool)
    ensures
        r == (parts(a@) == parts(b@)),
{
    if a.len() != b.len() {
        assert(parts(a@).len() != parts(b@).len());
        return false;
    }
    let r = path_starts_with(b, a);
    proof {
        let av = parts(a@);
        let bv = parts(b@);
        assert(av =~= a@.map_values(|s: String| s@));
        assert(bv =~= b@.map_values(|s: String| s@));
        assert(bv.subrange(0, bv.len() as int) =~= bv);
    }
    r
}

/// The output paths, each as its components.
pub open spec fn outputs_view(outputs: Seq<Vec<String>>) -> Seq<Seq<Seq<char>>> {
    outputs.map_values(|p: Vec<String>| parts(p@))
}

/// The path at `i` equals a path before it.
pub open spec fn repeats_earlier(outs: Seq<Seq<Seq<char>>>, i: int) -> bool {
    exists|j: int| 0 <= j < i && outs[j] == outs[i]
}

/// Whether `candidate` equals one of the paths in `outputs`: an entry
/// whose output path was already written is refused.
pub fn output_seen(outputs: &Vec<Vec<String>>, candidate: &Vec<String>) -> (r: bool)
    ensures
        r == outputs_view(outputs@).contains(parts(candidate@)),
{
    let ghost outs = outputs_view(outputs@);
    let mut j: usize = 0;
    while j < outputs.len()
        invariant
            j <= outputs@.len(),
            outs == outputs_view(outputs@),
            forall|k: int| 0 <= k < j ==> outs[k] != parts(candidate@),
        decreases outputs@.len() - j,
    {
        if paths_equal(&outputs[j], candidate) {
            assert(outs[j as int] == parts(candidate@));
            return true;
        }
        j += 1;
    }
    false
}

/// The first position whose path repeats an earlier one: extraction refuses
/// the entry there, since it would write over what an earlier entry wrote.
pub fn first_repeated_output(outputs: &Vec<Vec<String>>) -> (r: Option<usize>)
    ensures
        match r {
            Some(i) => i < outputs@.len() && repeats_earlier(outputs_view(outputs@), i as int) && forall|k: int|
                0 <= k < i ==> !repeats_earlier(outputs_view(outputs@), k),
            None => forall|k: int| 0 <= k < outputs@.len() ==> !repeats_earlier(outputs_view(outputs@), k),
        },
{
    let ghost outs = outputs_view(outputs@);
    let mut i: usize = 0;
    while i < outputs.len()
        invariant
            i <= outputs@.len(),
            outs == outputs_view(outputs@),
            forall|k: int| 0 <= k < i ==> !repeats_earlier(outs, k),
        decreases outputs@.len() - i,
    {
        let mut j: usize = 0;
        while j < i
            invariant
                j <= i < outputs@.len(),
                outs == outputs_view(outputs@),
                forall|k: int| 0 <= k < i ==> !repeats_earlier(outs, k),
                forall|k: int| 0 <= k < j ==> outs[k] != outs[i as int],
            decreases i - j,
        {
            if paths_equal(&outputs[j], &outputs[i]) {
                assert(outs[j as int] == outs[i as int]);
                assert(repeats_earlier(outs, i as int));
                return Some(i);
            }
            j += 1;
        }
        assert(!repeats_earlier(outs, i as int));
        i += 1;
    }
    None
}

/// The view of a path.
pub open spec fn parts(p: Seq<String>) -> Seq<Seq<char>> {
    p.map_values(|s: String| s@)
}

/// A component that is a name (not the root, a prefix, `.` or `..`).
pub open spec fn is_name_component(c: Seq<char>) -> bool {
    c.len() > 0 && c[0] != '/' && c != seq!['.'] && c != seq!['.', '.']
}

/// `Path::file_name`: the last component when it is a name, else empty.
pub open spec fn file_name_of(p: Seq<Seq<char>>) -> Seq<char> {
    if p.len() > 0 && is_name_component(p.last()) {
        p.last()
    } else {
        Seq::empty()
    }
}

/// The file name of a path, or the empty string.
pub fn file_name(path: &Vec<String>) -> (r: String)
    ensures
        r@ == file_name_of(parts(path@)),
{
    if path.len() == 0 {
        return String::new();
    }
    let last = &path[path.len() - 1];
    let v = chars_of(last.as_str());
    if v.len() == 0 || v[0] == '/' || (v.len() == 1 && v[0] == '.') || (v.len() == 2 && v[0] == '.' && v[1] == '.') {
        proof {
            if v@.len() == 1 && v@[0] == '.' {
                assert(v@ =~= seq!['.']);
            }
            if v@.len() == 2 && v@[0] == '.' && v@[1] == '.' {
                assert(v@ =~= seq!['.', '.']);
            }
        }
        return String::new();
    }
    proof {
        assert(v@ != seq!['.']) by {
            if v@ == seq!['.'] {
                assert(v@.len() == 1);
            }
        }
        assert(v@ != seq!['.', '.']) by {
            if v@ == seq!['.', '.'] {
                assert(v@.len() == 2);
            }
        }
    }
    last.clone()
}

/// The components under which paths are never looked at.
pub open spec fn is_ignored_component(c: Seq<char>) -> bool {
    c == "__MACOSX"@ || c == ".git"@ || c == "_conversion"@
}

fn ignored_component(c: &str) -> (r: bool)
    ensures
        r == is_ignored_component(c@),
{
    str_eq(c, "__MACOSX") || str_eq(c, ".git") || str_eq(c, "_conversion")
}

/// A path is ignored when it is not under `root`, or when a component
/// below `root` is `__MACOSX`, `.git` or `_conversion`.
pub open spec fn ignored_path(path: Seq<Seq<char>>, root: Seq<Seq<char>>) -> bool {
    !is_prefix_of(root, path) || exists|i: int| root.len() <= i < path.len() && is_ignored_component(#[trigger] path[i])
}

/// Whether a path is ignored relative to `root` (see `ignored_path`).
pub fn is_ignored_path(path: &Vec<String>, root: &Vec<String>) -> (r: bool)
    ensures
        r == ignored_path(parts(path@), parts(root@)),
{
    if !path_starts_with(path, root) {
        return true;
    }
    let mut i = root.len();
    while i < path.len()
        invariant
            root@.len() <= i <= path@.len(),
            forall|j: int| root@.len() <= j < i ==> !is_ignored_component(#[trigger] parts(path@)[j]),
        decreases path@.len() - i,
    {
        if ignored_component(path[i].as_str()) {
            assert(is_ignored_component(parts(path@)[i as int]));
            return true;
        }
        i += 1;
    }
    false
}

/// The number of components of `child` below `root`, or 0 when `child` is
/// not under `root`.
pub open spec fn depth_of(root: Seq<Seq<char>>, child: Seq<Seq<char>>) -> int {
    if is_prefix_of(root, child) { child.len() - root.len() } else { 0 }
}

/// The depth of `child` below `root`.
pub fn depth(root: &Vec<String>, child: &Vec<String>) -> (r: usize)
    ensures
        r as int == depth_of(parts(root@), parts(child@)),
{
    if path_starts_with(child, root) {
        child.len() - root.len()
    } else {
        0
    }
}

// ----- names -----

/// The index of the last `c` in `s`, if any.
pub open spec fn last_index_of(s: Seq<char>, c: char) -> Option<int>
    decreases s.len(),
{
    if s.len() == 0 {
        None
    } else if s.last() == c {
        Some(s.len() - 1)
    } else {
        last_index_of(s.drop_last(), c)
    }
}

/// A file name without its extension: everything before the last dot,
/// unless that dot is the first character.
pub open spec fn without_extension(name: Seq<char>) -> Seq<char> {
    match last_index_of(name, '.') {
        Some(dot) => if dot > 0 { name.subrange(0, dot) } else { name },
        None => name,
    }
}

proof fn lemma_last_index_bounds(s: Seq<char>, c: char)
    ensures
        last_index_of(s, c) matches Some(i) ==> 0 <= i < s.len() && s[i] == c,
    decreases s.len(),
{
    if s.len() > 0 && s.last() != c {
        lemma_last_index_bounds(s.drop_last(), c);
    }
}

fn last_index(v: &Vec<char>, c: char) -> (r: Option<usize>)
    ensures
        match last_index_of(v@, c) {
            Some(i) => r == Some(i as usize),
            None => r is None,
        },
{
    let mut i = v.len();
    assert(v@.take(v@.len() as int) =~= v@);
    while i > 0
        invariant
            i <= v@.len(),
            last_index_of(v@, c) == last_index_of(v@.take(i as int), c),
        decreases i,
    {
        assert(v@.take(i as int).drop_last() =~= v@.take(i - 1));
        if v[i - 1] == c {
            return Some(i - 1);
        }
        i -= 1;
    }
    None
}

/// A file name without its extension (see `without_extension`).
pub fn strip_extension(name: &str) -> (r: String)
    ensures
        r@ == without_extension(name@),
{
    let v = chars_of(name);
    proof {
        assert(v@.take(v@.len() as int) =~= v@);
        lemma_last_index_bounds(v@, '.');
    }
    match last_index(&v, '.') {
        Some(dot) => {
            if dot > 0 {
                let mut out: Vec<char> = Vec::new();
                let mut i: usize = 0;
                while i < dot
                    invariant
                        i <= dot < v@.len(),
                        out@ == v@.subrange(0, i as int),
                    decreases dot - i,
                {
                    out.push(v[i]);
                    assert(v@.subrange(0, i as int).push(v@[i as int]) =~= v@.subrange(0, i + 1));
                    i += 1;
                }
                string_of(&out)
            } else {
                name.to_owned()
            }
        },
        None => name.to_owned(),
    }
}

pub open spec fn hex_digit(n: int) -> char {
    if n < 10 { ((n + 48) as u8) as char } else { ((n + 55) as u8) as char }
}

/// Two upper-case hexadecimal digits per byte.
pub open spec fn hex_of(bytes: Seq<u8>) -> Seq<char>
    decreases bytes.len(),
{
    if bytes.len() == 0 {
        Seq::empty()
    } else {
        hex_of(bytes.drop_last()) + seq![hex_digit(bytes.last() as int / 16), hex_digit(bytes.last() as int % 16)]
    }
}

/// The upper-case hexadecimal rendering of bytes.
pub fn hex(bytes: &[u8]) -> (r: String)
    ensures
        r@ == hex_of(bytes@),
{
    let mut s = String::new();
    let mut i: usize = 0;
    while i < bytes.len()
        invariant
            i <= bytes@.len(),
            s@ == hex_of(bytes@.take(i as int)),
        decreases bytes@.len() - i,
    {
        let b = bytes[i];
        let hi = b / 16;
        let lo = b % 16;
        let ch = if hi < 10 { (hi + 48) as char } else { (hi + 55) as char };
        let cl = if lo < 10 { (lo + 48) as char } else { (lo + 55) as char };
        push_char(&mut s, ch);
        push_char(&mut s, cl);
        assert(bytes@.take(i + 1).drop_last() =~= bytes@.take(i as int));
        i += 1;
    }
    assert(bytes@.take(bytes@.len() as int) =~= bytes@);
    s
}

/// The SHA-256 digest of a byte sequence, as the sha2 crate computes it.
pub uninterp spec fn spec_sha256(data: Seq<u8>) -> Seq<u8>;

/// `sha2::Sha256::digest`: the 32-byte SHA-256 digest of `data`. The
/// contract names the digest; the hash function is sha2's.
#[verifier::external_body]
fn sha256_digest(data: &[u8]) -> (r: Vec<u8>)
    ensures
        r@ == spec_sha256(data@),
        r@.len() == 32,
{
    <sha2::Sha256 as sha2::Digest>::digest(data).to_vec()
}

/// The SHA-256 digest of `data`, in upper-case hexadecimal.
pub fn sha256_hex(data: &[u8]) -> (r: String)
    ensures
        r@ == hex_of(spec_sha256(data@)),
        r@.len() == 64,
{
    let digest = sha256_digest(data);
    let r = hex(digest.as_slice());
    proof {
        lemma_hex_len(digest@);
    }
    r
}

proof fn lemma_hex_len(bytes: Seq<u8>)
    ensures
        hex_of(bytes).len() == 2 * bytes.len(),
    decreases bytes.len(),
{
    if bytes.len() > 0 {
        lemma_hex_len(bytes.drop_last());
    }
}

/// Characters that cannot stand in a folder name on common systems.
pub open spec fn is_invalid_folder_char(c: char) -> bool {
    c == '<' || c == '>' || c == ':' || c == '"' || c == '/' || c == '\\' || c == '|' || c == '?' || c == '*'
        || (c as u32) < 0x20 || (c as u32) == 0x7F
}

pub open spec fn replace_invalid(name: Seq<char>) -> Seq<char> {
    Seq::new(name.len(), |i: int| if is_invalid_folder_char(name[i]) { '_' } else { name[i] })
}

/// `s` without trailing dots and spaces.
pub open spec fn strip_dots_spaces(s: Seq<char>) -> Seq<char>
    decreases s.len(),
{
    if s.len() > 0 && (s.last() == '.' || s.last() == ' ') {
        strip_dots_spaces(s.drop_last())
    } else {
        s
    }
}

/// A folder name made safe: invalid characters become `_`, surrounding
/// whitespace and trailing dots and spaces go, and an empty result becomes
/// `ConvertedWorld`.
pub open spec fn safe_folder_name_of(name: Seq<char>) -> Seq<char> {
    let cleaned = strip_dots_spaces(trimmed(replace_invalid(name)));
    if cleaned.len() == 0 { "ConvertedWorld"@ } else { cleaned }
}

/// A folder name made safe (see `safe_folder_name_of`).
pub fn safe_folder_name(name: &str) -> (r: String)
    ensures
        r@ == safe_folder_name_of(name@),
{
    let v = chars_of(name);
    let mut mapped: Vec<char> = Vec::new();
    let mut i: usize = 0;
    while i < v.len()
        invariant
            i <= v@.len(),
            v@ == name@,
            mapped@ == replace_invalid(name@).take(i as int),
        decreases v@.len() - i,
    {
        let c = v[i];
        let u = c as u32;
        let invalid = c == '<' || c == '>' || c == ':' || c == '"' || c == '/' || c == '\\' || c == '|' || c == '?'
            || c == '*' || u < 0x20 || u == 0x7F;
        mapped.push(if invalid { '_' } else { c });
        assert(replace_invalid(name@).take(i + 1) =~= replace_invalid(name@).take(i as int).push(
            if invalid { '_' } else { c },
        ));
        i += 1;
    }
    assert(replace_invalid(name@).take(v@.len() as int) =~= replace_invalid(name@));
    let joined = string_of(&mapped);
    let t = trim(joined.as_str());
    let w = chars_of(t.as_str());
    let mut end = w.len();
    assert(w@.take(w@.len() as int) =~= w@);
    while end > 0 && (w[end - 1] == '.' || w[end - 1] == ' ')
        invariant
            end <= w@.len(),
            strip_dots_spaces(w@) == strip_dots_spaces(w@.take(end as int)),
        decreases end,
    {
        assert(w@.take(end as int).drop_last() =~= w@.take(end - 1));
        end -= 1;
    }
    if end == 0 {
        return "ConvertedWorld".to_owned();
    }
    let mut out: Vec<char> = Vec::new();
    let mut k: usize = 0;
    while k < end
        invariant
            k <= end <= w@.len(),
            out@ == w@.take(k as int),
        decreases end - k,
    {
        out.push(w[k]);
        assert(w@.take(k as int).push(w@[k as int]) =~= w@.take(k + 1));
        k += 1;
    }
    string_of(&out)
}

// ----- archive entries -----

/// `s` with every `\` replaced by `/`.
pub open spec fn slashes(s: Seq<char>) -> Seq<char> {
    Seq::new(s.len(), |i: int| if s[i] == '\\' { '/' } else { s[i] })
}

/// `s` without any number of leading `./`.
pub open spec fn strip_dot_slash(s: Seq<char>) -> Seq<char>
    decreases s.len(),
{
    if s.len() >= 2 && s[0] == '.' && s[1] == '/' {
        strip_dot_slash(s.skip(2))
    } else {
        s
    }
}

pub open spec fn is_ascii_alpha(c: char) -> bool {
    ('a' <= c && c <= 'z') || ('A' <= c && c <= 'Z')
}

/// An entry name as it will be used: `\` read as `/`, leading `./` dropped.
pub open spec fn normalized_entry(name: Seq<char>) -> Seq<char> {
    strip_dot_slash(slashes(name))
}

/// An entry name is absolute when it starts with `/` or a drive letter and `:`.
pub open spec fn is_absolute_entry(n: Seq<char>) -> bool {
    (n.len() > 0 && n[0] == '/') || (n.len() > 1 && is_ascii_alpha(n[0]) && n[1] == ':')
}

/// The sanitised entry name, or the message that rejects it.
pub open spec fn sanitized_entry(name: Seq<char>) -> Result<Seq<char>, Seq<char>> {
    let n = normalized_entry(name);
    if is_absolute_entry(n) {
        Err("ZIP 包含绝对路径："@ + name)
    } else if split_on(n, '/').contains(seq!['.', '.']) {
        Err("ZIP 包含父目录跳转："@ + name)
    } else {
        Ok(n)
    }
}

/// Checks an archive entry name: no absolute path, no `..` component.
/// Returns the name with `/` separators and without leading `./`.
#[verifier::rlimit(30)]
pub fn sanitize_entry_name(name: &str) -> (r: Result<String, ConversionError>)
    ensures
        match sanitized_entry(name@) {
            Ok(n) => r matches Ok(s) && s@ == n,
            Err(m) => fails_with(r, m),
        },
{
    let v = chars_of(name);
    let mut w: Vec<char> = Vec::new();
    let mut i: usize = 0;
    while i < v.len()
        invariant
            i <= v@.len(),
            v@ == name@,
            w@ == slashes(name@).take(i as int),
        decreases v@.len() - i,
    {
        let c = if v[i] == '\\' { '/' } else { v[i] };
        w.push(c);
        assert(slashes(name@).take(i + 1) =~= slashes(name@).take(i as int).push(c));
        i += 1;
    }
    assert(slashes(name@).take(v@.len() as int) =~= slashes(name@));
    let mut start: usize = 0;
    while w.len() - start >= 2 && w[start] == '.' && w[start + 1] == '/'
        invariant
            start <= w@.len(),
            w@ == slashes(name@),
            strip_dot_slash(w@) == strip_dot_slash(w@.skip(start as int)),
        decreases w@.len() - start,
    {
        assert(w@.skip(start as int).skip(2) =~= w@.skip(start + 2));
        start += 2;
    }
    let mut n: Vec<char> = Vec::new();
    let mut k = start;
    while k < w.len()
        invariant
            start <= k <= w@.len(),
            n@ == w@.subrange(start as int, k as int),
        decreases w@.len() - k,
    {
        n.push(w[k]);
        assert(w@.subrange(start as int, k as int).push(w@[k as int]) =~= w@.subrange(start as int, k + 1));
        k += 1;
    }
    assert(n@ =~= w@.skip(start as int));
    assert(strip_dot_slash(w@.skip(start as int)) == w@.skip(start as int));
    let normalized = string_of(&n);
    assert(normalized@ == normalized_entry(name@));
    let absolute = (n.len() > 0 && n[0] == '/') || (n.len() > 1 && (('a' <= n[0] && n[0] <= 'z') || ('A' <= n[0]
        && n[0] <= 'Z')) && n[1] == ':');
    assert(n@ == normalized@);
    if absolute {
        let mut m = "ZIP 包含绝对路径：".to_owned();
        push_str(&mut m, name);
        return Err(ConversionError::new(CODE_ERROR, m));
    }
    let pieces = split_char(normalized.as_str(), '/');
    let mut j: usize = 0;
    while j < pieces.len()
        invariant
            j <= pieces@.len(),
            pieces@.len() == split_on(normalized@, '/').len(),
            forall|x: int| 0 <= x < pieces@.len() ==> (#[trigger] pieces@[x])@ == split_on(normalized@, '/')[x],
            forall|x: int| 0 <= x < j ==> split_on(normalized@, '/')[x] != seq!['.', '.'],
            normalized@ == normalized_entry(name@),
            !is_absolute_entry(normalized@),
        decreases pieces@.len() - j,
    {
        if str_eq(pieces[j].as_str(), "..") {
            proof {
                reveal_strlit("..");
                assert(".."@ =~= seq!['.', '.']);
                assert(split_on(normalized@, '/')[j as int] == seq!['.', '.']);
            }
            assert(split_on(normalized@, '/').contains(seq!['.', '.']));
            let mut m = "ZIP 包含父目录跳转：".to_owned();
            push_str(&mut m, name);
            return Err(ConversionError::new(CODE_ERROR, m));
        }
        proof {
            reveal_strlit("..");
            assert(".."@ =~= seq!['.', '.']);
        }
        j += 1;
    }
    assert(!split_on(normalized@, '/').contains(seq!['.', '.']));
    Ok(normalized)
}

/// The components that an entry name adds under the destination: its
/// `/`-separated pieces without empty ones and `.`.
pub open spec fn entry_components(n: Seq<char>) -> Seq<Seq<char>> {
    split_on(n, '/').filter(kept_piece())
}

/// The pieces of an entry name that become components.
pub open spec fn kept_piece() -> spec_fn(Seq<char>) -> bool {
    |p: Seq<char>| p.len() > 0 && p != seq!['.']
}

/// Where an entry is written: the destination followed by the entry's components.
pub fn entry_output(destination: &Vec<String>, clean_name: &str) -> (r: Vec<String>)
    ensures
        parts(r@) == parts(destination@) + entry_components(clean_name@),
{
    let pieces = split_char(clean_name, '/');
    let mut out: Vec<String> = Vec::new();
    let mut i: usize = 0;
    while i < destination.len()
        invariant
            i <= destination@.len(),
            parts(out@) == parts(destination@).take(i as int),
        decreases destination@.len() - i,
    {
        let ghost before = out@;
        out.push(destination[i].clone());
        assert(out@ == before.push(destination@[i as int]));
        assert(parts(out@) =~= parts(before).push(destination@[i as int]@));
        assert(parts(destination@).take(i + 1) =~= parts(destination@).take(i as int).push(
            destination@[i as int]@,
        ));
        i += 1;
    }
    assert(parts(destination@).take(destination@.len() as int) =~= parts(destination@));
    let ghost all = split_on(clean_name@, '/');
    let mut j: usize = 0;
    while j < pieces.len()
        invariant
            j <= pieces@.len(),
            pieces@.len() == all.len(),
            forall|x: int| 0 <= x < pieces@.len() ==> (#[trigger] pieces@[x])@ == all[x],
            parts(out@) == parts(destination@) + all.take(j as int).filter(kept_piece()),
        decreases pieces@.len() - j,
    {
        let p = &pieces[j];
        let keep = !p.as_str().is_empty() && !str_eq(p.as_str(), ".");
        let ghost before = out@;
        proof {
            reveal_strlit(".");
            assert("."@ =~= seq!['.']);
            assert(all.take(j + 1) =~= all.take(j as int).push(all[j as int]));
            all.take(j as int).lemma_filter_push(all[j as int], kept_piece());
            assert(keep == kept_piece()(all[j as int]));
        }
        if keep {
            out.push(p.clone());
            assert(out@ == before.push(pieces@[j as int]));
            assert(parts(out@) =~= parts(before).push(all[j as int]));
        }
        j += 1;
    }
    assert(all.take(all.len() as int) =~= all);
    out
}

proof fn lemma_declared_err_extends(es: Seq<EntryInfo>, k: int)
    requires
        0 <= k <= es.len(),
        declared_outcome(es.take(k)) is Err,
    ensures
        declared_outcome(es) == declared_outcome(es.take(k)),
    decreases es.len() - k,
{
    if k < es.len() {
        assert(es.drop_last().take(k) =~= es.take(k));
        lemma_declared_err_extends(es.drop_last(), k);
    } else {
        assert(es.take(k) =~= es);
    }
}

/// An archive entry as listed in its central directory.
pub struct EntryInfo {
    pub is_dir: bool,
    pub size: u64,
}

/// The declared totals of the first `n` entries: files and their bytes, or
/// `None` once the byte count overflows.
pub open spec fn declared_totals(es: Seq<EntryInfo>) -> Option<(int, int)>
    decreases es.len(),
{
    if es.len() == 0 {
        Some((0, 0))
    } else {
        match declared_totals(es.drop_last()) {
            None => None,
            Some((f, b)) => {
                let e = es.last();
                if e.is_dir {
                    Some((f, b))
                } else if b + e.size > u64::MAX {
                    None
                } else {
                    Some((f + 1, b + e.size))
                }
            },
        }
    }
}

pub open spec fn within_limits(t: (int, int)) -> bool {
    t.0 <= MAX_ENTRIES && t.1 <= MAX_UNCOMPRESSED_BYTES
}

/// The declared size check: at every prefix of the entry list the byte
/// count must not overflow, and the file and byte counts must stay within
/// the limits. On success, the totals of all entries.
pub open spec fn declared_outcome(es: Seq<EntryInfo>) -> Result<(int, int), Seq<char>>
    decreases es.len(),
{
    if es.len() == 0 {
        Ok((0, 0))
    } else {
        match declared_outcome(es.drop_last()) {
            Err(m) => Err(m),
            Ok(_) => match declared_totals(es) {
                None => Err("ZIP 声明的数据大小溢出"@),
                Some(t) => if within_limits(t) {
                    Ok(t)
                } else {
                    Err("ZIP 规模超过安全限制（最多 100 万文件、256 GiB 解压数据）"@)
                },
            },
        }
    }
}

proof fn lemma_declared_ok_totals(es: Seq<EntryInfo>)
    ensures
        declared_outcome(es) matches Ok(t) ==> declared_totals(es) == Some(t),
    decreases es.len(),
{
    if es.len() > 0 {
        lemma_declared_ok_totals(es.drop_last());
    }
}

/// Checks what an archive declares: at most a million files and 256 GiB.
/// Returns the declared file count and byte count.
pub fn check_declared(entries: &Vec<EntryInfo>) -> (r: Result<(u64, u64), ConversionError>)
    ensures
        match declared_outcome(entries@) {
            Ok((f, b)) => r matches Ok((x, y)) && x as int == f && y as int == b,
            Err(m) => fails_with(r, m),
        },
{
    let mut files: u64 = 0;
    let mut bytes: u64 = 0;
    let mut i: usize = 0;
    while i < entries.len()
        invariant
            i <= entries@.len(),
            declared_outcome(entries@.take(i as int)) == Ok::<(int, int), Seq<char>>((files as int, bytes as int)),
            files <= i,
        decreases entries@.len() - i,
    {
        let ghost pre = entries@.take(i as int);
        let ghost cur = entries@.take(i + 1);
        assert(cur.drop_last() =~= pre);
        proof {
            lemma_declared_ok_totals(pre);
        }
        let e = &entries[i];
        if !e.is_dir {
            files += 1;
            if e.size > 0 {
                match bytes.checked_add(e.size) {
                    Some(b) => bytes = b,
                    None => {
                        proof {
                            lemma_declared_err_extends(entries@, i + 1);
                        }
                        return Err(ConversionError::new(CODE_ERROR, "ZIP 声明的数据大小溢出".to_owned()));
                    },
                }
            }
        }
        if files > MAX_ENTRIES || bytes > MAX_UNCOMPRESSED_BYTES {
            proof {
                lemma_declared_err_extends(entries@, i + 1);
            }
            return Err(ConversionError::new(CODE_ERROR, "ZIP 规模超过安全限制（最多 100 万文件、256 GiB 解压数据）".to_owned()));
        }
        i += 1;
    }
    assert(entries@.take(entries@.len() as int) =~= entries@);
    Ok((files, bytes))
}

/// The running check of the bytes actually unpacked.
pub fn check_extracted(extracted_bytes: u64) -> (r: Result<(), ConversionError>)
    ensures
        extracted_bytes <= MAX_UNCOMPRESSED_BYTES ==> r is Ok,
        extracted_bytes > MAX_UNCOMPRESSED_BYTES ==> fails_with(r, "ZIP 实际解压数据超过 256 GiB 安全限制"@),
{
    if extracted_bytes > MAX_UNCOMPRESSED_BYTES {
        return Err(ConversionError::new(CODE_ERROR, "ZIP 实际解压数据超过 256 GiB 安全限制".to_owned()));
    }
    Ok(())
}

pub open spec fn min_int(a: int, b: int) -> int {
    if a < b { a } else { b }
}

/// Extraction progress, 2 to 10 percent: by bytes when sizes were declared,
/// else by files.
pub open spec fn extract_percent_of(extracted_bytes: int, declared_bytes: int, extracted_files: int, declared_files: int) -> int {
    if declared_bytes > 0 {
        2 + min_int(extracted_bytes * 8 / declared_bytes, 8)
    } else {
        2 + min_int(extracted_files * 8 / (if declared_files < 1 { 1 } else { declared_files }), 8)
    }
}

/// Extraction progress (see `extract_percent_of`).
pub fn extract_percent(extracted_bytes: u64, declared_bytes: u64, extracted_files: u64, declared_files: u64) -> (r: i32)
    requires
        extracted_bytes <= MAX_UNCOMPRESSED_BYTES,
        extracted_files <= MAX_ENTRIES,
    ensures
        r as int == extract_percent_of(extracted_bytes as int, declared_bytes as int, extracted_files as int, declared_files as int),
{
    if declared_bytes > 0 {
        let q = extracted_bytes * 8 / declared_bytes;
        let m = if q < 8 { q } else { 8 };
        2 + m as i32
    } else {
        let d = if declared_files < 1 { 1 } else { declared_files };
        let q = extracted_files * 8 / d;
        let m = if q < 8 { q } else { 8 };
        2 + m as i32
    }
}

/// Packing progress, 94 to 100 percent: by bytes when there are any, else by files.
pub open spec fn zip_percent_of(written: int, total_bytes: int, index: int, files: int) -> int {
    94 + if total_bytes > 0 {
        min_int(written * 6 / total_bytes, 6)
    } else {
        min_int((index + 1) * 6 / (if files < 1 { 1 } else { files }), 6)
    }
}

/// Packing progress (see `zip_percent_of`).
pub fn zip_percent(written: u64, total_bytes: u64, index: u64, files: u64) -> (r: i32)
    requires
        written <= u64::MAX / 6,
        index < u64::MAX / 6,
    ensures
        r as int == zip_percent_of(written as int, total_bytes as int, index as int, files as int),
{
    let m = if total_bytes > 0 {
        let q = written * 6 / total_bytes;
        if q < 6 { q } else { 6 }
    } else {
        let d = if files < 1 { 1 } else { files };
        let q = (index + 1) * 6 / d;
        if q < 6 { q } else { 6 }
    };
    94 + m as i32
}

/// Copy progress between `start` and `end` percent after `index + 1` of `count` files.
pub open spec fn copy_percent_of(start: int, end: int, index: int, count: int) -> int {
    start + (end - start) * (index + 1) / (if count < 1 { 1 } else { count })
}

/// Copy progress (see `copy_percent_of`).
pub fn copy_percent(start: i32, end: i32, index: u64, count: u64) -> (r: i64)
    requires
        0 <= start <= end <= 100,
        index < count,
        count <= 0x1_0000_0000,
    ensures
        r as int == copy_percent_of(start as int, end as int, index as int, count as int),
{
    let d = if count < 1 { 1 } else { count as i64 };
    assert(0 <= (end - start) * (index + 1) <= 100 * 0x1_0000_0000) by (nonlinear_arith)
        requires
            0 <= end - start <= 100,
            0 <= index + 1 <= 0x1_0000_0000,
    {
    }
    start as i64 + ((end - start) as i64) * ((index + 1) as i64) / d
}

/// The name of an entry in the output archive: the folder name, `/`, and
/// the file's path below the world joined by `/` (with any `\` read as `/`).
pub open spec fn zip_entry_name_of(folder: Seq<char>, relative: Seq<Seq<char>>) -> Seq<char> {
    folder + seq!['/'] + slashes(joined(relative))
}

/// Components joined by `/`.
pub open spec fn joined(p: Seq<Seq<char>>) -> Seq<char>
    decreases p.len(),
{
    if p.len() == 0 {
        Seq::empty()
    } else if p.len() == 1 {
        p[0]
    } else {
        joined(p.drop_last()) + seq!['/'] + p.last()
    }
}

/// The name of an entry in the output archive (see `zip_entry_name_of`).
pub fn zip_entry_name(folder: &str, relative: &Vec<String>) -> (r: String)
    ensures
        r@ == zip_entry_name_of(folder@, parts(relative@)),
{
    let mut s = folder.to_owned();
    push_char(&mut s, '/');
    let ghost base = s@;
    let mut i: usize = 0;
    while i < relative.len()
        invariant
            i <= relative@.len(),
            base == folder@ + seq!['/'],
            s@ == base + slashes(joined(parts(relative@).take(i as int))),
        decreases relative@.len() - i,
    {
        let ghost before = s@;
        proof {
            assert(parts(relative@).take(i + 1).drop_last() =~= parts(relative@).take(i as int));
        }
        if i > 0 {
            push_char(&mut s, '/');
        }
        let v = chars_of(relative[i].as_str());
        let mut k: usize = 0;
        let ghost mid = s@;
        while k < v.len()
            invariant
                k <= v@.len(),
                s@ == mid + slashes(v@).take(k as int),
            decreases v@.len() - k,
        {
            let c = if v[k] == '\\' { '/' } else { v[k] };
            push_char(&mut s, c);
            assert(slashes(v@).take(k + 1) =~= slashes(v@).take(k as int).push(c));
            k += 1;
        }
        proof {
            assert(slashes(v@).take(v@.len() as int) =~= slashes(v@));
            let pre = joined(parts(relative@).take(i as int));
            let cur = joined(parts(relative@).take(i + 1));
            if i == 0 {
                assert(cur == v@);
                assert(pre =~= Seq::<char>::empty());
                assert(slashes(pre) =~= Seq::<char>::empty());
            } else {
                assert(cur == pre + seq!['/'] + v@);
                assert(slashes(cur) =~= slashes(pre) + seq!['/'] + slashes(v@));
            }
            assert(s@ =~= base + slashes(cur));
        }
        i += 1;
    }
    assert(parts(relative@).take(relative@.len() as int) =~= parts(relative@));
    s
}

// ----- looking into an archive before extracting it -----

pub open spec fn is_leveldb_file_name(upper: Seq<char>) -> bool {
    has_suffix(upper, ".LDB"@) || has_suffix(upper, ".LOG"@) || has_prefix(upper, "MANIFEST-"@) || upper
        == "CURRENT"@
}

/// The index of the first piece that is a database directory name.
pub open spec fn first_db_position(pieces: Seq<Seq<char>>, from: int) -> Option<int>
    decreases pieces.len() - from,
{
    if from >= pieces.len() || from < 0 {
        None
    } else if is_db_directory_name(pieces[from]) {
        Some(from)
    } else {
        first_db_position(pieces, from + 1)
    }
}

/// Whether an entry name is a LevelDB file directly inside the first
/// database directory of its path.
pub open spec fn is_peek_candidate_name(name: Seq<char>) -> bool {
    let pieces = split_on(slashes(name), '/');
    match first_db_position(pieces, 0) {
        None => false,
        Some(p) => pieces.len() == p + 2 && is_leveldb_file_name(spec_uppercase(pieces[p + 1])),
    }
}

/// Whether the header of this entry is worth reading before extraction:
/// a file of at least 4 bytes that is a LevelDB file directly inside a
/// database directory.
pub fn peek_entry_is_candidate(name: &str, is_dir: bool, size: u64) -> (r: bool)
    ensures
        r == (!is_dir && size >= 4 && is_peek_candidate_name(name@)),
{
    if is_dir || size < 4 {
        return false;
    }
    let v = chars_of(name);
    let mut w: Vec<char> = Vec::new();
    let mut i: usize = 0;
    while i < v.len()
        invariant
            i <= v@.len(),
            v@ == name@,
            w@ == slashes(name@).take(i as int),
        decreases v@.len() - i,
    {
        let c = if v[i] == '\\' { '/' } else { v[i] };
        w.push(c);
        assert(slashes(name@).take(i + 1) =~= slashes(name@).take(i as int).push(c));
        i += 1;
    }
    assert(slashes(name@).take(v@.len() as int) =~= slashes(name@));
    let cleaned = string_of(&w);
    let pieces = split_char(cleaned.as_str(), '/');
    let ghost all = split_on(slashes(name@), '/');
    let mut p: usize = 0;
    while p < pieces.len() && !matches_db_directory(pieces[p].as_str())
        invariant
            p <= pieces@.len(),
            pieces@.len() == all.len(),
            forall|x: int| 0 <= x < pieces@.len() ==> (#[trigger] pieces@[x])@ == all[x],
            first_db_position(all, 0) == first_db_position(all, p as int),
        decreases pieces@.len() - p,
    {
        p += 1;
    }
    if p == pieces.len() {
        return false;
    }
    assert(first_db_position(all, p as int) == Some(p as int));
    if pieces.len() - p != 2 {
        return false;
    }
    let upper = to_uppercase(pieces[p + 1].as_str());
    let u = upper.as_str();
    crate::text::ends_with(u, ".LDB") || crate::text::ends_with(u, ".LOG") || crate::text::starts_with(u, "MANIFEST-")
        || str_eq(u, "CURRENT")
}

/// The verdict of looking at the headers of the candidate entries: some
/// carry the legacy AES header and none the NetEase XOR header.
pub open spec fn legacy_only(headers: Seq<Seq<u8>>) -> bool {
    (exists|i: int| 0 <= i < headers.len() && #[trigger] headers[i] == legacy_aes_header()) && !(exists|i: int|
        0 <= i < headers.len() && #[trigger] headers[i] == netease_header())
}

pub(crate) fn bytes_eq(a: &Vec<u8>, b: &Vec<u8>) -> (r: bool)
    ensures
        r == (a@ == b@),
{
    if a.len() != b.len() {
        return false;
    }
    let mut i: usize = 0;
    while i < a.len()
        invariant
            i <= a@.len() == b@.len(),
            forall|j: int| 0 <= j < i ==> a@[j] == b@[j],
        decreases a@.len() - i,
    {
        if a[i] != b[i] {
            return false;
        }
        i += 1;
    }
    assert(a@ =~= b@);
    true
}

/// Whether an archive holds only legacy-encrypted databases, judged from
/// the first four bytes of each candidate entry (see `legacy_only`).
pub fn peek_verdict(headers: &Vec<Vec<u8>>) -> (r: bool)
    ensures
        r == legacy_only(headers@.map_values(|h: Vec<u8>| h@)),
{
    let ghost hs = headers@.map_values(|h: Vec<u8>| h@);
    let legacy = crate::detect::legacy_aes_header_bytes();
    let modern = crate::detect::netease_header_bytes();
    let mut saw_legacy = false;
    let mut saw_modern = false;
    let mut i: usize = 0;
    while i < headers.len()
        invariant
            i <= headers@.len(),
            hs == headers@.map_values(|h: Vec<u8>| h@),
            legacy@ == legacy_aes_header(),
            modern@ == netease_header(),
            saw_legacy == exists|j: int| 0 <= j < i && #[trigger] hs[j] == legacy_aes_header(),
            saw_modern == exists|j: int| 0 <= j < i && #[trigger] hs[j] == netease_header(),
        decreases headers@.len() - i,
    {
        if bytes_eq(&headers[i], &legacy) {
            saw_legacy = true;
        } else if bytes_eq(&headers[i], &modern) {
            saw_modern = true;
        }
        proof {
            assert(hs[i as int] == headers@[i as int]@);
            assert(legacy_aes_header() != netease_header()) by {
                assert(legacy_aes_header()[0] != netease_header()[0]);
            }
        }
        i += 1;
    }
    saw_legacy && !saw_modern
}

// ----- free space -----

/// A mounted volume: its path, the length of that path's text, and the
/// bytes available on it.
pub struct Volume {
    pub mount: Vec<String>,
    pub mount_len: usize,
    pub available: u64,
}

/// The volume that holds `target`: among those whose mount path leads to
/// it, the one with the longest mount path text (the first of equals).
pub open spec fn is_holding_volume(vols: Seq<Volume>, target: Seq<Seq<char>>, k: int) -> bool {
    &&& 0 <= k < vols.len()
    &&& is_prefix_of(parts(vols[k].mount@), target)
    &&& forall|i: int|
        0 <= i < vols.len() && is_prefix_of(parts((#[trigger] vols[i]).mount@), target) ==> vols[i].mount_len
            <= vols[k].mount_len
    &&& forall|i: int|
        0 <= i < k && is_prefix_of(parts((#[trigger] vols[i]).mount@), target) ==> vols[i].mount_len < vols[k].mount_len
}

/// When the volume that holds `target` has fewer than `need` bytes
/// available, those bytes; `None` when it has enough or no volume holds the
/// target.
pub fn free_space_shortfall(target: &Vec<String>, volumes: &Vec<Volume>, need: u64) -> (r: Option<u64>)
    ensures
        match r {
            Some(a) => exists|k: int| #[trigger] is_holding_volume(volumes@, parts(target@), k)
                && volumes@[k].available == a && a < need,
            None => forall|k: int| #[trigger] is_holding_volume(volumes@, parts(target@), k)
                ==> volumes@[k].available >= need,
        },
{
    let mut best: Option<usize> = None;
    let mut i: usize = 0;
    while i < volumes.len()
        invariant
            i <= volumes@.len(),
            match best {
                None => forall|j: int| 0 <= j < i ==> !is_prefix_of(parts((#[trigger] volumes@[j]).mount@), parts(target@)),
                Some(b) => b < i && is_prefix_of(parts(volumes@[b as int].mount@), parts(target@))
                    && (forall|j: int| 0 <= j < i && is_prefix_of(parts((#[trigger] volumes@[j]).mount@), parts(target@))
                        ==> volumes@[j].mount_len <= volumes@[b as int].mount_len)
                    && (forall|j: int| 0 <= j < b && is_prefix_of(parts((#[trigger] volumes@[j]).mount@), parts(target@))
                        ==> volumes@[j].mount_len < volumes@[b as int].mount_len),
            },
        decreases volumes@.len() - i,
    {
        if path_starts_with(target, &volumes[i].mount) {
            let better = match best {
                None => true,
                Some(b) => volumes[i].mount_len > volumes[b].mount_len,
            };
            if better {
                best = Some(i);
            }
        }
        i += 1;
    }
    match best {
        None => None,
        Some(b) => {
            assert(is_holding_volume(volumes@, parts(target@), b as int));
            proof {
                assert forall|k: int| #[trigger] is_holding_volume(volumes@, parts(target@), k) implies k == b by {
                    if k < b {
                    } else if k > b {
                    }
                }
            }
            if volumes[b].available < need {
                Some(volumes[b].available)
            } else {
                None
            }
        },
    }
}


// ----- time stamps of packed entries -----

/// The date and time of an entry of a packed archive.
#[verifier::external_type_specification]
#[verifier::external_body]
pub struct ExZipDateTime(zip::DateTime);

/// A leap year of the Gregorian calendar.
pub open spec fn is_leap(year: int) -> bool {
    year % 4 == 0 && (year % 25 != 0 || year % 16 == 0)
}

/// The days of a month.
pub open spec fn days_in_month(year: int, month: int) -> int {
    if month == 2 {
        if is_leap(year) { 29 } else { 28 }
    } else if month == 4 || month == 6 || month == 9 || month == 11 {
        30
    } else {
        31
    }
}

/// A date and time that a zip archive can hold: a year from 1980 to 2107 and
/// an actual date and time of day (a leap second allowed).
pub open spec fn zip_time_ok(year: int, month: int, day: int, hour: int, minute: int, second: int) -> bool {
    1980 <= year <= 2107 && 1 <= month <= 12 && 1 <= day <= days_in_month(year, month) && hour <= 23 && minute <= 59
        && second <= 60
}

/// `zip::DateTime::from_date_and_time`: a date and time when the fields form
/// one that a zip archive can hold (see `zip_time_ok`). The packed value
/// itself is the crate's; the contract says only when there is one.
#[verifier::external_body]
fn zip_date_time(year: u16, month: u8, day: u8, hour: u8, minute: u8, second: u8) -> (r: Option<zip::DateTime>)
    ensures
        r is Some <==> zip_time_ok(year as int, month as int, day as int, hour as int, minute as int, second as int),
{
    zip::DateTime::from_date_and_time(year, month, day, hour, minute, second).ok()
}

/// The time stamp of a packed entry, from the local time of its file: years
/// before 1980 count as 1980; `None` when the time cannot be held.
pub fn zip_datetime(year: i32, month: u32, day: u32, hour: u32, minute: u32, second: u32) -> (r: Option<zip::DateTime>)
    requires
        1 <= month <= 12,
        1 <= day <= 31,
        hour <= 23,
        minute <= 59,
        second <= 60,
    ensures
        r is Some <==> zip_time_ok(
            (if year < 1980 { 1980 } else { year as int }) % 65536,
            month as int,
            day as int,
            hour as int,
            minute as int,
            second as int,
        ),
{
    let y: i32 = if year < 1980 { 1980 } else { year };
    let y16: u16 = (y % 65536) as u16;
    zip_date_time(y16, month as u8, day as u8, hour as u8, minute as u8, second as u8)
}

// ----- laws -----

proof fn lemma_filter_from<A>(s: Seq<A>, pred: spec_fn(A) -> bool)
    ensures
        forall|i: int| 0 <= i < s.filter(pred).len() ==> s.contains(#[trigger] s.filter(pred)[i]),
    decreases s.len(),
{
    if s.len() > 0 {
        let t = s.drop_last();
        lemma_filter_from(t, pred);
        assert(t.push(s.last()) =~= s);
        t.lemma_filter_push(s.last(), pred);
        let f = s.filter(pred);
        assert forall|i: int| 0 <= i < f.len() implies s.contains(#[trigger] f[i]) by {
            if pred(s.last()) && i == f.len() - 1 {
                assert(s[s.len() - 1] == f[i]);
            } else {
                assert(f[i] == t.filter(pred)[i]);
                assert(t.contains(t.filter(pred)[i]));
                let w = choose|w: int| 0 <= w < t.len() && t[w] == f[i];
                assert(s[w] == f[i]);
            }
        }
    }
}

proof fn lemma_split_no_sep(s: Seq<char>, sep: char)
    ensures
        forall|i: int, j: int|
            0 <= i < split_on(s, sep).len() && 0 <= j < split_on(s, sep)[i].len() ==> #[trigger] split_on(s, sep)[i][j]
                != sep,
    decreases s.len(),
{
    if s.len() > 0 {
        lemma_split_no_sep(s.drop_first(), sep);
        let rest = split_on(s.drop_first(), sep);
        let r = split_on(s, sep);
        crate::version::lemma_split_nonempty(s.drop_first(), sep);
        assert forall|i: int, j: int| 0 <= i < r.len() && 0 <= j < r[i].len() implies #[trigger] r[i][j] != sep by {
            if s[0] == sep {
                if i > 0 {
                    assert(r[i] == rest[i - 1]);
                }
            } else if i == 0 {
                if j > 0 {
                    assert(r[0][j] == rest[0][j - 1]);
                }
            } else {
                assert(r[i] == rest[i]);
            }
        }
    }
}

/// An entry that passes the check lands inside the destination: each
/// component it adds is a plain name (not `.` or `..`, not empty, no `/`).
pub proof fn law_entry_stays_inside(name: Seq<char>)
    requires
        sanitized_entry(name) is Ok,
    ensures
        sanitized_entry(name) matches Ok(n) && forall|i: int|
            0 <= i < entry_components(n).len() ==> is_name_component(#[trigger] entry_components(n)[i])
                && !entry_components(n)[i].contains('/'),
{
    let n = normalized_entry(name);
    let pieces = split_on(n, '/');
    let comps = entry_components(n);
    lemma_filter_from(pieces, kept_piece());
    lemma_split_no_sep(n, '/');
    assert forall|i: int| 0 <= i < comps.len() implies is_name_component(#[trigger] comps[i]) && !comps[i].contains(
        '/',
    ) by {
        pieces.lemma_filter_pred(kept_piece(), i);
        assert(pieces.contains(comps[i]));
        let w = choose|w: int| 0 <= w < pieces.len() && pieces[w] == comps[i];
        assert(comps[i] != seq!['.', '.']);
        assert(comps[i][0] == pieces[w][0]);
        if comps[i].contains('/') {
            let j = choose|j: int| 0 <= j < comps[i].len() && comps[i][j] == '/';
            assert(pieces[w][j] == '/');
        }
    }
}

/// An archive that passes the declared-size check declares at most a
/// million files and 256 GiB.
pub proof fn law_declared_within_limits(es: Seq<EntryInfo>)
    requires
        declared_outcome(es) is Ok,
    ensures
        declared_outcome(es) matches Ok(t) && within_limits(t),
{
}

proof fn lemma_strip_prefix(s: Seq<char>)
    ensures
        strip_dots_spaces(s).len() <= s.len(),
        strip_dots_spaces(s) == s.take(strip_dots_spaces(s).len() as int),
        strip_dots_spaces(s).len() > 0 ==> strip_dots_spaces(s).last() != '.' && strip_dots_spaces(s).last() != ' ',
    decreases s.len(),
{
    if s.len() > 0 && (s.last() == '.' || s.last() == ' ') {
        lemma_strip_prefix(s.drop_last());
        let k = strip_dots_spaces(s).len() as int;
        assert(s.drop_last().take(k) =~= s.take(k));
    } else {
        assert(s.take(s.len() as int) =~= s);
    }
}

/// A safe folder name is never empty, holds no character that a folder name
/// cannot hold, and does not end with a dot or a space.
pub proof fn law_safe_folder_name(name: Seq<char>)
    ensures
        safe_folder_name_of(name).len() > 0,
        forall|i: int| 0 <= i < safe_folder_name_of(name).len() ==> !is_invalid_folder_char(
            #[trigger] safe_folder_name_of(name)[i],
        ),
        safe_folder_name_of(name).last() != '.' && safe_folder_name_of(name).last() != ' ',
{
    reveal_strlit("ConvertedWorld");
    let r = replace_invalid(name);
    let t = trimmed(r);
    let c = strip_dots_spaces(t);
    lemma_strip_prefix(t);
    assert forall|i: int| 0 <= i < r.len() implies !is_invalid_folder_char(#[trigger] r[i]) by {}
    if c.len() > 0 {
        let lo = first_non_ws(r, 0);
        let hi = last_non_ws_end(r, r.len() as int);
        crate::text::lemma_trim_bounds(r);
        assert forall|i: int| 0 <= i < c.len() implies !is_invalid_folder_char(#[trigger] c[i]) by {
            assert(c[i] == t[i]);
            assert(t[i] == r[lo + i]);
        }
    }
}

} // verus!
