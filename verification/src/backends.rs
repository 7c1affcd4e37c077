//! The external backends: which versions they can produce, where they are
//! looked for, how their output is read, and what their progress means.

use crate::archive::{file_name, file_name_of, parts};
use crate::error::{fails_with, is_error, ConversionError, CODE_CANCELLED, CODE_ERROR, CODE_TIMEOUT};
use crate::models::{BackendStatusDto, TargetVersion};
use crate::text::{
    all_digits, dec_nat, lemma_dec_nat_digits, lemma_parse_dec_nat, lemma_parse_i32_range, chars_of, dec_int, dec_string_u64, is_ws, parse_i32, parse_i32_spec, parse_u32, parse_unsigned, push_str,
    spec_lowercase, spec_utf8_lossy, str_eq, string_of, to_lowercase, trim, trimmed, utf8_lossy,
};
use crate::version::{
    chunker_format, chunker_format_of, is_newer, lemma_split_piece, lemma_split_single, newer, split_char, split_on, version_text,
    Version,
};
use vstd::prelude::*;

verus! {

// ----- target versions -----

/// The version that a backend format token names: `JAVA_<major>_<minor>`
/// with an optional `_<patch>` (a patch that does not parse counts as 0).
/// Only 26.x up to 26.3 and 1.12 to 1.21 are targets.
pub open spec fn target_of(token: Seq<char>) -> Option<Version> {
    let ps = split_on(token, '_');
    if ps.len() < 3 {
        None
    } else {
        match (parse_i32_spec(ps[1]), parse_i32_spec(ps[2])) {
            (Some(major), Some(minor)) => {
                let patch = if ps.len() > 3 {
                    match parse_i32_spec(ps[3]) {
                        Some(p) => p,
                        None => 0,
                    }
                } else {
                    0
                };
                if (major == 26 && minor <= 3) || (major == 1 && 12 <= minor && minor <= 21) {
                    Some(Version { major: major as i32, minor: minor as i32, patch: patch as i32 })
                } else {
                    None
                }
            },
            _ => None,
        }
    }
}

/// Reads a backend format token (see `target_of`).
pub fn parse_target_token(token: &str) -> (r: Option<Version>)
    ensures
        r == target_of(token@),
{
    let ps = split_char(token, '_');
    if ps.len() < 3 {
        return None;
    }
    let major = match parse_i32(ps[1].as_str()) {
        Some(v) => v,
        None => {
            return None;
        },
    };
    let minor = match parse_i32(ps[2].as_str()) {
        Some(v) => v,
        None => {
            return None;
        },
    };
    let patch = if ps.len() > 3 {
        match parse_i32(ps[3].as_str()) {
            Some(p) => p,
            None => 0,
        }
    } else {
        0
    };
    proof {
        let sp = split_on(token@, '_');
        lemma_parse_i32_range(sp[1]);
        lemma_parse_i32_range(sp[2]);
        if sp.len() > 3 {
            lemma_parse_i32_range(sp[3]);
        }
    }
    if (major == 26 && minor <= 3) || (major == 1 && 12 <= minor && minor <= 21) {
        Some(Version { major, minor, patch })
    } else {
        None
    }
}

/// How a target version is shown: `Java 1.21.10`, or `Java 1.21` without a
/// patch.
pub open spec fn display_of(v: Version) -> Seq<char> {
    "Java "@ + version_text(v)
}

/// The name under which a target version is shown.
pub fn display_version(v: Version) -> (r: String)
    ensures
        r@ == display_of(v),
{
    let mut s = "Java ".to_owned();
    push_str(&mut s, v.to_text().as_str());
    s
}

pub open spec fn target_view(t: TargetVersion) -> (Seq<char>, Seq<char>) {
    (t.display_name@, t.chunker_format@)
}

pub open spec fn targets_view(ts: Seq<TargetVersion>) -> Seq<(Seq<char>, Seq<char>)> {
    ts.map_values(|t: TargetVersion| target_view(t))
}

/// The patch releases of `1.<minor>`, newest first.
pub open spec fn legacy_line(minor: int, max_patch: int) -> Seq<Version> {
    Seq::new((max_patch + 1) as nat, |i: int| Version { major: 1, minor: minor as i32, patch: (max_patch - i) as i32 })
}

/// The versions the backend is known to produce, newest first.
pub open spec fn builtin_versions() -> Seq<Version> {
    seq![
        Version { major: 26, minor: 3, patch: 0 },
        Version { major: 26, minor: 2, patch: 0 },
        Version { major: 26, minor: 1, patch: 2 },
        Version { major: 26, minor: 1, patch: 1 },
        Version { major: 26, minor: 1, patch: 0 },
    ] + legacy_line(21, 11) + legacy_line(20, 6) + legacy_line(19, 4) + legacy_line(18, 2) + legacy_line(17, 1)
        + legacy_line(16, 5) + legacy_line(15, 2) + legacy_line(14, 4) + legacy_line(13, 2) + legacy_line(12, 2)
}

/// The target of a version: its display name and its backend format.
pub open spec fn builtin_target(v: Version) -> (Seq<char>, Seq<char>) {
    (display_of(v), chunker_format_of(v))
}

fn push_target(list: &mut Vec<TargetVersion>, v: Version)
    ensures
        targets_view(final(list)@) == targets_view(old(list)@).push(builtin_target(v)),
{
    let t = TargetVersion { display_name: display_version(v), chunker_format: chunker_format(v) };
    let ghost before = targets_view(old(list)@);
    list.push(t);
    assert(targets_view(list@) =~= before.push(builtin_target(v)));
}

/// Appends the patch releases of `1.<minor>`, newest first.
fn push_line(list: &mut Vec<TargetVersion>, minor: i32, max_patch: i32)
    requires
        0 <= max_patch <= 20,
    ensures
        targets_view(final(list)@) == targets_view(old(list)@) + legacy_line(minor as int, max_patch as int).map_values(
            |v: Version| builtin_target(v),
        ),
{
    let ghost line = legacy_line(minor as int, max_patch as int).map_values(|v: Version| builtin_target(v));
    let ghost start = targets_view(old(list)@);
    let mut patch = max_patch;
    while patch >= 0
        invariant
            -1 <= patch <= max_patch <= 20,
            line == legacy_line(minor as int, max_patch as int).map_values(|v: Version| builtin_target(v)),
            targets_view(list@) == start + line.take(max_patch - patch),
        decreases patch + 1,
    {
        let v = Version { major: 1, minor, patch };
        let ghost before = targets_view(list@);
        push_target(list, v);
        assert(line[max_patch - patch] == builtin_target(v));
        assert(line.take(max_patch - patch + 1) =~= line.take(max_patch - patch).push(builtin_target(v)));
        patch -= 1;
    }
    assert(line.take(max_patch + 1) =~= line);
}

/// The built-in list of targets, newest first, for when the backend cannot
/// be asked.
pub fn builtin_targets() -> (r: Vec<TargetVersion>)
    ensures
        targets_view(r@) == builtin_versions().map_values(|v: Version| builtin_target(v)),
{
    let mut list: Vec<TargetVersion> = Vec::new();
    push_target(&mut list, Version { major: 26, minor: 3, patch: 0 });
    push_target(&mut list, Version { major: 26, minor: 2, patch: 0 });
    push_target(&mut list, Version { major: 26, minor: 1, patch: 2 });
    push_target(&mut list, Version { major: 26, minor: 1, patch: 1 });
    push_target(&mut list, Version { major: 26, minor: 1, patch: 0 });
    push_line(&mut list, 21, 11);
    push_line(&mut list, 20, 6);
    push_line(&mut list, 19, 4);
    push_line(&mut list, 18, 2);
    push_line(&mut list, 17, 1);
    push_line(&mut list, 16, 5);
    push_line(&mut list, 15, 2);
    push_line(&mut list, 14, 4);
    push_line(&mut list, 13, 2);
    push_line(&mut list, 12, 2);
    assert(targets_view(list@) =~= builtin_versions().map_values(|v: Version| builtin_target(v)));
    list
}


/// What the regex crate finds: the texts of the successive non-overlapping
/// leftmost-first matches of `pattern` in `text`.
pub uninterp spec fn spec_regex_find_all(pattern: Seq<char>, text: Seq<char>) -> Seq<Seq<char>>;

/// `regex::Regex::find_iter`: the texts of all non-overlapping matches of
/// `pattern` in `text`, in order (none when the pattern does not compile).
/// Which substrings match is the regex engine's; the contract names them
/// without restating the engine.
#[verifier::external_body]
fn regex_find_all(pattern: &str, text: &str) -> (r: Vec<String>)
    ensures
        r@.map_values(|s: String| s@) == spec_regex_find_all(pattern@, text@),
{
    match regex::Regex::new(pattern) {
        Ok(re) => re.find_iter(text).map(|m| m.as_str().to_string()).collect(),
        Err(_) => Vec::new(),
    }
}

/// The pattern of a backend format token.
pub open spec fn target_pattern() -> Seq<char> {
    "JAVA_(?:26|1)_\\d+(?:_\\d+){0,2}"@
}

/// The text that the backend printed: its standard output, a newline, and
/// its standard error, each decoded leniently.
pub open spec fn backend_text(stdout: Seq<u8>, stderr: Seq<u8>) -> Seq<char> {
    spec_utf8_lossy(stdout) + seq!['\n'] + spec_utf8_lossy(stderr)
}

/// `ts` without repetitions, each kept where it first occurs.
pub open spec fn first_seen(ts: Seq<Seq<char>>) -> Seq<Seq<char>>
    decreases ts.len(),
{
    if ts.len() == 0 {
        Seq::empty()
    } else {
        let r = first_seen(ts.drop_last());
        if r.contains(ts.last()) {
            r
        } else {
            r.push(ts.last())
        }
    }
}

/// The tokens that name targets, with their versions, in order.
pub open spec fn parsed_targets(ts: Seq<Seq<char>>) -> Seq<(Version, Seq<char>)>
    decreases ts.len(),
{
    if ts.len() == 0 {
        Seq::empty()
    } else {
        let r = parsed_targets(ts.drop_last());
        match target_of(ts.last()) {
            Some(v) => r.push((v, ts.last())),
            None => r,
        }
    }
}

/// `x` inserted into `s` after every element whose version is not older.
pub open spec fn insert_desc(s: Seq<(Version, Seq<char>)>, x: (Version, Seq<char>)) -> Seq<(Version, Seq<char>)>
    decreases s.len(),
{
    if s.len() == 0 {
        seq![x]
    } else if !newer(x.0, s.last().0) {
        s.push(x)
    } else {
        insert_desc(s.drop_last(), x).push(s.last())
    }
}

/// `s` sorted newest first; entries of the same version keep their order.
pub open spec fn sort_desc(s: Seq<(Version, Seq<char>)>) -> Seq<(Version, Seq<char>)>
    decreases s.len(),
{
    if s.len() == 0 {
        Seq::empty()
    } else {
        insert_desc(sort_desc(s.drop_last()), s.last())
    }
}

/// The targets that the backend's answer lists: each distinct token that
/// names a target, newest first, or `None` when there is none.
pub open spec fn listed_targets(stdout: Seq<u8>, stderr: Seq<u8>) -> Option<Seq<(Seq<char>, Seq<char>)>> {
    let ts = parsed_targets(first_seen(spec_regex_find_all(target_pattern(), backend_text(stdout, stderr))));
    if ts.len() == 0 {
        None
    } else {
        Some(sort_desc(ts).map_values(|e: (Version, Seq<char>)| (display_of(e.0), e.1)))
    }
}

proof fn lemma_insert_at(s: Seq<(Version, Seq<char>)>, x: (Version, Seq<char>), j: int)
    requires
        0 <= j <= s.len(),
        j == 0 || !newer(x.0, s[j - 1].0),
        forall|k: int| j <= k < s.len() ==> newer(x.0, #[trigger] s[k].0),
    ensures
        insert_desc(s, x) == s.insert(j, x),
    decreases s.len(),
{
    if s.len() == 0 {
        assert(s.insert(j, x) =~= seq![x]);
    } else if j == s.len() {
        assert(s.insert(j, x) =~= s.push(x));
    } else {
        assert(newer(x.0, s[s.len() - 1].0));
        lemma_insert_at(s.drop_last(), x, j);
        assert(s.drop_last().insert(j, x).push(s.last()) =~= s.insert(j, x));
    }
}

struct Entry {
    version: Version,
    token: String,
}

spec fn entry_view(e: Entry) -> (Version, Seq<char>) {
    (e.version, e.token@)
}

/// Asks nothing of the backend: reads its answer to the question for its
/// formats (see `listed_targets`).
pub fn targets_from_output(stdout: &[u8], stderr: &[u8]) -> (r: Option<Vec<TargetVersion>>)
    ensures
        match listed_targets(stdout@, stderr@) {
            None => r is None,
            Some(l) => r matches Some(v) && targets_view(v@) == l,
        },
{
    let mut text = utf8_lossy(stdout);
    push_str(&mut text, "\n");
    proof {
        reveal_strlit("\n");
    }
    push_str(&mut text, utf8_lossy(stderr).as_str());
    assert(text@ =~= backend_text(stdout@, stderr@));
    let tokens = regex_find_all("JAVA_(?:26|1)_\\d+(?:_\\d+){0,2}", text.as_str());
    let ghost all = tokens@.map_values(|s: String| s@);
    let mut seen: Vec<String> = Vec::new();
    let mut sorted: Vec<Entry> = Vec::new();
    let mut found: usize = 0;
    let mut i: usize = 0;
    while i < tokens.len()
        invariant
            i <= tokens@.len(),
            all == tokens@.map_values(|s: String| s@),
            seen@.map_values(|s: String| s@) == first_seen(all.take(i as int)),
            found as int == parsed_targets(first_seen(all.take(i as int))).len(),
            found <= i,
            sorted@.map_values(|e: Entry| entry_view(e)) == sort_desc(parsed_targets(first_seen(all.take(i as int)))),
        decreases tokens@.len() - i,
    {
        let t = tokens[i].as_str();
        assert(all.take(i + 1).drop_last() =~= all.take(i as int));
        assert(all.take(i + 1).last() == t@);
        let ghost fs = first_seen(all.take(i as int));
        let mut already = false;
        let mut k: usize = 0;
        while k < seen.len()
            invariant
                k <= seen@.len(),
                seen@.map_values(|s: String| s@) == fs,
                already == fs.take(k as int).contains(t@),
            decreases seen@.len() - k,
        {
            assert(fs.take(k + 1) =~= fs.take(k as int).push(fs[k as int]));
            assert(fs[k as int] == seen@[k as int]@);
            let eq = str_eq(seen[k].as_str(), t);
            proof {
                if eq {
                    assert(fs.take(k + 1)[k as int] == t@);
                } else if fs.take(k + 1).contains(t@) {
                    let w = choose|w: int| 0 <= w < fs.take(k + 1).len() && #[trigger] fs.take(k + 1)[w] == t@;
                    assert(w < k);
                    assert(fs.take(k as int)[w] == t@);
                }
                if fs.take(k as int).contains(t@) {
                    let w = choose|w: int| 0 <= w < fs.take(k as int).len() && #[trigger] fs.take(k as int)[w] == t@;
                    assert(fs.take(k + 1)[w] == t@);
                }
            }
            if eq {
                already = true;
            }
            k += 1;
        }
        assert(fs.take(seen@.len() as int) =~= fs);
        let ghost pt = parsed_targets(fs);
        if already {
            assert(first_seen(all.take(i + 1)) == fs);
        }
        if !already {
            assert(first_seen(all.take(i + 1)) == fs.push(t@));
            let ghost sb = seen@.map_values(|s: String| s@);
            seen.push(string_of(&chars_of(t)));
            assert(seen@.map_values(|s: String| s@) =~= sb.push(t@));
            assert(fs.push(t@).drop_last() =~= fs);
            match parse_target_token(t) {
                Some(v) => {
                    let ghost before = sorted@.map_values(|e: Entry| entry_view(e));
                    let mut j = sorted.len();
                    while j > 0 && is_newer(v, sorted[j - 1].version)
                        invariant
                            j <= sorted@.len(),
                            sorted@.map_values(|e: Entry| entry_view(e)) == before,
                            forall|x: int| j <= x < before.len() ==> newer(v, #[trigger] before[x].0),
                        decreases j,
                    {
                        assert(before[j - 1] == entry_view(sorted@[j - 1]));
                        j -= 1;
                    }
                    proof {
                        if j > 0 {
                            assert(before[j - 1] == entry_view(sorted@[j - 1]));
                        }
                        lemma_insert_at(before, (v, t@), j as int);
                    }
                    sorted.insert(j, Entry { version: v, token: string_of(&chars_of(t)) });
                    assert(sorted@.map_values(|e: Entry| entry_view(e)) =~= before.insert(j as int, (v, t@)));
                    assert(parsed_targets(fs.push(t@)) == pt.push((v, t@)));
                    assert(pt.push((v, t@)).drop_last() =~= pt);
                    assert(sort_desc(pt.push((v, t@))) == insert_desc(sort_desc(pt), (v, t@)));
                    found += 1;
                },
                None => {
                    assert(parsed_targets(fs.push(t@)) == pt);
                },
            }
        }
        i += 1;
    }
    assert(all.take(tokens@.len() as int) =~= all);
    if found == 0 {
        return None;
    }
    let ghost es = sorted@.map_values(|e: Entry| entry_view(e));
    let mut out: Vec<TargetVersion> = Vec::new();
    let mut m: usize = 0;
    while m < sorted.len()
        invariant
            m <= sorted@.len(),
            es == sorted@.map_values(|e: Entry| entry_view(e)),
            targets_view(out@) == es.take(m as int).map_values(|e: (Version, Seq<char>)| (display_of(e.0), e.1)),
        decreases sorted@.len() - m,
    {
        let e = &sorted[m];
        let ghost before = targets_view(out@);
        out.push(TargetVersion { display_name: display_version(e.version), chunker_format: string_of(&chars_of(e.token.as_str())) });
        assert(targets_view(out@) =~= before.push((display_of(e.version), e.token@)));
        assert(es.take(m + 1) =~= es.take(m as int).push(es[m as int]));
        assert(es.take(m + 1).map_values(|e: (Version, Seq<char>)| (display_of(e.0), e.1)) =~= es.take(m as int).map_values(
            |e: (Version, Seq<char>)| (display_of(e.0), e.1),
        ).push((display_of(e.version), e.token@)));
        m += 1;
    }
    assert(es.take(sorted@.len() as int) =~= es);
    Some(out)
}


// ----- locating the backends -----

/// Where the backends were found.
#[derive(Debug, Clone)]
pub struct BackendPaths {
    pub java: Option<Vec<String>>,
    pub chunker: Option<Vec<String>>,
    pub b2j: Option<Vec<String>>,
}

pub open spec fn opt_path(p: Option<Vec<String>>) -> Option<Seq<Seq<char>>> {
    match p {
        Some(v) => Some(parts(v@)),
        None => None,
    }
}

/// `base` followed by each of `subs`, in order.
pub open spec fn under_each(base: Seq<Seq<char>>, subs: Seq<Seq<Seq<char>>>) -> Seq<Seq<Seq<char>>> {
    subs.map_values(|s: Seq<Seq<char>>| base + s)
}

/// The directories below the resource directory that may hold backends.
pub open spec fn resource_subdirs() -> Seq<Seq<Seq<char>>> {
    seq![seq!["backends"@], seq!["runtime"@]]
}

/// The directories below the executable's directory that may hold backends.
pub open spec fn exe_subdirs() -> Seq<Seq<Seq<char>>> {
    seq![
        seq![],
        seq!["backends"@],
        seq!["runtime"@],
        seq!["app"@],
        seq!["app"@, "backends"@],
        seq!["app"@, "runtime"@],
        seq!["app"@, "native"@],
        seq!["resources"@],
        seq!["resources"@, "backends"@],
        seq!["resources"@, "runtime"@],
        seq!["_up_"@, "resources"@],
        seq!["_up_"@, "resources"@, "backends"@],
        seq!["_up_"@, "resources"@, "runtime"@],
    ]
}

/// The directories below the working directory that may hold backends.
pub open spec fn cwd_subdirs() -> Seq<Seq<Seq<char>>> {
    seq![seq![], seq!["src-tauri"@, "backends"@], seq!["src-tauri"@, "runtime"@]]
}

/// The directories searched for backends, in order: below the resource
/// directory, the executable's directory and the working directory, those
/// that are known.
pub open spec fn search_dirs_of(
    resource: Option<Seq<Seq<char>>>,
    exe_dir: Option<Seq<Seq<char>>>,
    cwd: Option<Seq<Seq<char>>>,
) -> Seq<Seq<Seq<char>>> {
    (match resource {
        Some(r) => under_each(r, resource_subdirs()),
        None => Seq::empty(),
    }) + (match exe_dir {
        Some(e) => under_each(e, exe_subdirs()),
        None => Seq::empty(),
    }) + (match cwd {
        Some(c) => under_each(c, cwd_subdirs()),
        None => Seq::empty(),
    })
}

pub open spec fn paths_view(ps: Seq<Vec<String>>) -> Seq<Seq<Seq<char>>> {
    ps.map_values(|p: Vec<String>| parts(p@))
}

/// `base` followed by the given components.
pub open spec fn strs_view(v: Seq<&str>) -> Seq<Seq<char>> {
    v.map_values(|s: &str| s@)
}

fn path_plus(base: &Vec<String>, subs: &Vec<&str>) -> (r: Vec<String>)
    ensures
        parts(r@) == parts(base@) + strs_view(subs@),
{
    let mut out: Vec<String> = Vec::new();
    let mut i: usize = 0;
    while i < base.len()
        invariant
            i <= base@.len(),
            parts(out@) == parts(base@).take(i as int),
        decreases base@.len() - i,
    {
        let ghost b = out@;
        out.push(string_of(&chars_of(base[i].as_str())));
        assert(parts(out@) =~= parts(b).push(base@[i as int]@));
        assert(parts(base@).take(i + 1) =~= parts(base@).take(i as int).push(base@[i as int]@));
        i += 1;
    }
    assert(parts(base@).take(base@.len() as int) =~= parts(base@));
    let ghost sv = strs_view(subs@);
    let mut j: usize = 0;
    while j < subs.len()
        invariant
            j <= subs@.len(),
            sv == strs_view(subs@),
            parts(out@) == parts(base@) + sv.take(j as int),
        decreases subs@.len() - j,
    {
        let ghost b = out@;
        out.push(string_of(&chars_of(subs[j])));
        assert(parts(out@) =~= parts(b).push(sv[j as int]));
        assert(sv.take(j + 1) =~= sv.take(j as int).push(sv[j as int]));
        j += 1;
    }
    assert(sv.take(subs@.len() as int) =~= sv);
    out
}

fn push_under(out: &mut Vec<Vec<String>>, base: &Vec<String>, sub: Vec<&str>)
    ensures
        paths_view(final(out)@) == paths_view(old(out)@).push(parts(base@) + strs_view(sub@)),
{
    let p = path_plus(base, &sub);
    let ghost before = paths_view(old(out)@);
    out.push(p);
    assert(paths_view(out@) =~= before.push(parts(base@) + strs_view(sub@)));
}


fn push_under0(out: &mut Vec<Vec<String>>, base: &Vec<String>)
    ensures
        paths_view(final(out)@) == paths_view(old(out)@).push(parts(base@)),
{
    let v: Vec<&str> = Vec::new();
    assert(strs_view(v@) =~= Seq::<Seq<char>>::empty());
    push_under(out, base, v);
    assert(parts(base@) + Seq::<Seq<char>>::empty() =~= parts(base@));
}

fn push_under1(out: &mut Vec<Vec<String>>, base: &Vec<String>, a: &str)
    ensures
        paths_view(final(out)@) == paths_view(old(out)@).push(parts(base@) + seq![a@]),
{
    let v = vec![a];
    assert(strs_view(v@) =~= seq![a@]);
    push_under(out, base, v);
}

fn push_under2(out: &mut Vec<Vec<String>>, base: &Vec<String>, a: &str, b: &str)
    ensures
        paths_view(final(out)@) == paths_view(old(out)@).push(parts(base@) + seq![a@, b@]),
{
    let v = vec![a, b];
    assert(strs_view(v@) =~= seq![a@, b@]);
    push_under(out, base, v);
}

fn push_under3(out: &mut Vec<Vec<String>>, base: &Vec<String>, a: &str, b: &str, c: &str)
    ensures
        paths_view(final(out)@) == paths_view(old(out)@).push(parts(base@) + seq![a@, b@, c@]),
{
    let v = vec![a, b, c];
    assert(strs_view(v@) =~= seq![a@, b@, c@]);
    push_under(out, base, v);
}

/// The directories searched for backends (see `search_dirs_of`).
pub fn search_dirs(resource: &Option<Vec<String>>, exe_dir: &Option<Vec<String>>, cwd: &Option<Vec<String>>) -> (r: Vec<
    Vec<String>,
>)
    ensures
        paths_view(r@) == search_dirs_of(opt_path(*resource), opt_path(*exe_dir), opt_path(*cwd)),
{
    let mut out: Vec<Vec<String>> = Vec::new();
    proof {
        reveal_strlit("backends");
        reveal_strlit("runtime");
        reveal_strlit("app");
        reveal_strlit("native");
        reveal_strlit("resources");
        reveal_strlit("_up_");
        reveal_strlit("src-tauri");
    }
    if let Some(r) = resource {
        push_under1(&mut out, r, "backends");
        push_under1(&mut out, r, "runtime");
    }
    let ghost after_resource = paths_view(out@);
    assert(after_resource =~= match opt_path(*resource) {
        Some(r) => under_each(r, resource_subdirs()),
        None => Seq::empty(),
    });
    if let Some(e) = exe_dir {
        push_under0(&mut out, e);
        push_under1(&mut out, e, "backends");
        push_under1(&mut out, e, "runtime");
        push_under1(&mut out, e, "app");
        push_under2(&mut out, e, "app", "backends");
        push_under2(&mut out, e, "app", "runtime");
        push_under2(&mut out, e, "app", "native");
        push_under1(&mut out, e, "resources");
        push_under2(&mut out, e, "resources", "backends");
        push_under2(&mut out, e, "resources", "runtime");
        push_under2(&mut out, e, "_up_", "resources");
        push_under3(&mut out, e, "_up_", "resources", "backends");
        push_under3(&mut out, e, "_up_", "resources", "runtime");
    }
    let ghost after_exe = paths_view(out@);
    assert(after_exe =~= after_resource + match opt_path(*exe_dir) {
        Some(e) => under_each(e, exe_subdirs()),
        None => Seq::empty(),
    });
    if let Some(c) = cwd {
        push_under0(&mut out, c);
        push_under2(&mut out, c, "src-tauri", "backends");
        push_under2(&mut out, c, "src-tauri", "runtime");
    }
    assert(paths_view(out@) =~= after_exe + match opt_path(*cwd) {
        Some(c) => under_each(c, cwd_subdirs()),
        None => Seq::empty(),
    });
    out
}

/// Each directory followed by each of the given relative paths, in order:
/// the places where a backend file is looked for.
pub open spec fn candidates_under(dirs: Seq<Seq<Seq<char>>>, names: Seq<Seq<Seq<char>>>) -> Seq<Seq<Seq<char>>>
    decreases dirs.len(),
{
    if dirs.len() == 0 {
        Seq::empty()
    } else {
        candidates_under(dirs.drop_last(), names) + under_each(dirs.last(), names)
    }
}

/// The relative paths of a bundled Java runtime.
pub open spec fn java_names() -> Seq<Seq<Seq<char>>> {
    seq![seq!["bin"@, "java.exe"@], seq!["bin"@, "java"@]]
}

/// The relative paths of the Bedrock-to-Java backend.
pub open spec fn b2j_names() -> Seq<Seq<Seq<char>>> {
    seq![seq!["b2j.exe"@], seq!["b2j"@]]
}

/// The relative path of the cross-version backend.
pub open spec fn chunker_names() -> Seq<Seq<Seq<char>>> {
    seq![seq!["chunker-cli.jar"@]]
}

/// Which backend file is looked for.
#[derive(Debug, Clone, Copy, PartialEq, Eq, Structural)]
pub enum Backend {
    Java,
    Chunker,
    B2j,
}

pub open spec fn names_of(b: Backend) -> Seq<Seq<Seq<char>>> {
    match b {
        Backend::Java => java_names(),
        Backend::Chunker => chunker_names(),
        Backend::B2j => b2j_names(),
    }
}

/// The places where a backend is looked for, in order; the first that is a
/// file is the backend.
pub fn backend_candidates(dirs: &Vec<Vec<String>>, backend: Backend) -> (r: Vec<Vec<String>>)
    ensures
        paths_view(r@) == candidates_under(paths_view(dirs@), names_of(backend)),
{
    proof {
        reveal_strlit("bin");
        reveal_strlit("java.exe");
        reveal_strlit("java");
        reveal_strlit("b2j.exe");
        reveal_strlit("b2j");
        reveal_strlit("chunker-cli.jar");
    }
    let mut out: Vec<Vec<String>> = Vec::new();
    let mut i: usize = 0;
    while i < dirs.len()
        invariant
            i <= dirs@.len(),
            paths_view(out@) == candidates_under(paths_view(dirs@).take(i as int), names_of(backend)),
        decreases dirs@.len() - i,
    {
        let d = &dirs[i];
        let ghost before = paths_view(out@);
        match backend {
            Backend::Java => {
                push_under2(&mut out, d, "bin", "java.exe");
                push_under2(&mut out, d, "bin", "java");
            },
            Backend::Chunker => {
                push_under1(&mut out, d, "chunker-cli.jar");
            },
            Backend::B2j => {
                push_under1(&mut out, d, "b2j.exe");
                push_under1(&mut out, d, "b2j");
            },
        }
        assert(paths_view(dirs@).take(i + 1).drop_last() =~= paths_view(dirs@).take(i as int));
        assert(paths_view(out@) =~= before + under_each(parts(d@), names_of(backend)));
        i += 1;
    }
    assert(paths_view(dirs@).take(dirs@.len() as int) =~= paths_view(dirs@));
    out
}

/// Whether a file in a searched directory is the cross-version backend, by
/// its lower-cased name.
pub fn is_chunker_jar(name: &str) -> (r: bool)
    ensures
        r == (spec_lowercase(name@) == "chunker-cli.jar"@),
{
    str_eq(to_lowercase(name).as_str(), "chunker-cli.jar")
}

// ----- backend status -----

/// `ps` joined with `sep` between them.
pub open spec fn joined_with(ps: Seq<Seq<char>>, sep: Seq<char>) -> Seq<char>
    decreases ps.len(),
{
    if ps.len() == 0 {
        Seq::empty()
    } else if ps.len() == 1 {
        ps[0]
    } else {
        joined_with(ps.drop_last(), sep) + sep + ps.last()
    }
}

/// Joins strings with a separator.
pub fn join_with(ps: &Vec<String>, sep: &str) -> (r: String)
    ensures
        r@ == joined_with(ps@.map_values(|s: String| s@), sep@),
{
    let ghost all = ps@.map_values(|s: String| s@);
    let mut out = String::new();
    let mut i: usize = 0;
    while i < ps.len()
        invariant
            i <= ps@.len(),
            all == ps@.map_values(|s: String| s@),
            out@ == joined_with(all.take(i as int), sep@),
        decreases ps@.len() - i,
    {
        assert(all.take(i + 1).drop_last() =~= all.take(i as int));
        if i > 0 {
            push_str(&mut out, sep);
        }
        push_str(&mut out, ps[i].as_str());
        proof {
            if i == 0 {
                assert(all.take(1) =~= seq![all[0]]);
            }
        }
        i += 1;
    }
    assert(all.take(ps@.len() as int) =~= all);
    out
}

/// What is missing among the backends, in order.
pub open spec fn missing_of(java_found: bool, chunker_found: bool, b2j_found: bool) -> Seq<Seq<char>> {
    (if java_found { Seq::empty() } else { seq!["Java 运行时"@] }) + (if chunker_found {
        Seq::empty()
    } else {
        seq!["Chunker CLI"@]
    }) + (if b2j_found { Seq::empty() } else { seq!["b2j（Bedrock→Java）"@] })
}

/// The name shown for a found backend file, or `未找到`.
pub open spec fn shown_path(p: Option<Seq<Seq<char>>>) -> Seq<char> {
    match p {
        Some(v) => file_name_of(v),
        None => "未找到"@,
    }
}

fn show_path(p: &Option<Vec<String>>) -> (r: String)
    ensures
        r@ == shown_path(opt_path(*p)),
{
    match p {
        Some(v) => file_name(v),
        None => "未找到".to_owned(),
    }
}

/// The backend status shown to the user. `java_version` is the first line
/// that the Java runtime printed, when one could be run.
pub fn backend_status(paths: &BackendPaths, java_version: Option<String>) -> (r: BackendStatusDto)
    ensures
        ({
            let missing = missing_of(java_version is Some, paths.chunker is Some, paths.b2j is Some);
            &&& r.ok == (missing.len() == 0)
            &&& r.java@ == match java_version {
                Some(v) => v@,
                None => "未找到"@,
            }
            &&& r.chunker@ == shown_path(opt_path(paths.chunker))
            &&& r.b2j@ == shown_path(opt_path(paths.b2j))
            &&& r.message@ == if missing.len() == 0 {
                Seq::empty()
            } else {
                "缺少 "@ + joined_with(missing, "、"@)
                    + "。请运行 npm run prepare:win（或 prepare:unix）填充 backends 与 runtime 目录。"@
            }
        }),
{
    let ghost missing_spec = missing_of(java_version is Some, paths.chunker is Some, paths.b2j is Some);
    let mut missing: Vec<String> = Vec::new();
    if java_version.is_none() {
        missing.push("Java 运行时".to_owned());
    }
    let ghost m1 = missing@.map_values(|s: String| s@);
    if paths.chunker.is_none() {
        missing.push("Chunker CLI".to_owned());
    }
    proof {
        if paths.chunker.is_none() {
            assert(missing@.map_values(|s: String| s@) =~= m1.push("Chunker CLI"@));
        }
    }
    let ghost m2 = missing@.map_values(|s: String| s@);
    if paths.b2j.is_none() {
        missing.push("b2j（Bedrock→Java）".to_owned());
    }
    proof {
        if paths.b2j.is_none() {
            assert(missing@.map_values(|s: String| s@) =~= m2.push("b2j（Bedrock→Java）"@));
        }
    }
    assert(missing@.map_values(|s: String| s@) =~= missing_spec);
    let ok = missing.len() == 0;
    let message = if ok {
        String::new()
    } else {
        let mut m = "缺少 ".to_owned();
        push_str(&mut m, join_with(&missing, "、").as_str());
        push_str(&mut m, "。请运行 npm run prepare:win（或 prepare:unix）填充 backends 与 runtime 目录。");
        m
    };
    let java = match java_version {
        Some(v) => v,
        None => "未找到".to_owned(),
    };
    BackendStatusDto { ok, java, chunker: show_path(&paths.chunker), b2j: show_path(&paths.b2j), message }
}

/// The index of the first `c` in `s`.
pub open spec fn first_index_of(s: Seq<char>, c: char, from: int) -> Option<int>
    decreases s.len() - from,
{
    if from < 0 || from >= s.len() {
        None
    } else if s[from] == c {
        Some(from)
    } else {
        first_index_of(s, c, from + 1)
    }
}

/// The first line of a text, trimmed; `None` for an empty text.
pub open spec fn first_line_of(text: Seq<char>) -> Option<Seq<char>> {
    if text.len() == 0 {
        None
    } else {
        match first_index_of(text, '\n', 0) {
            Some(p) => Some(trimmed(text.take(p))),
            None => Some(trimmed(text)),
        }
    }
}

/// The version line that a Java runtime printed for `-version`: the first
/// line of its standard error, or of its standard output when the standard
/// error is blank.
pub open spec fn java_version_of(stdout: Seq<u8>, stderr: Seq<u8>) -> Option<Seq<char>> {
    let e = spec_utf8_lossy(stderr);
    first_line_of(if trimmed(e).len() == 0 { spec_utf8_lossy(stdout) } else { e })
}

/// Reads the version line from what a Java runtime printed (see
/// `java_version_of`).
pub fn java_version_line(stdout: &[u8], stderr: &[u8]) -> (r: Option<String>)
    ensures
        match java_version_of(stdout@, stderr@) {
            Some(l) => r matches Some(s) && s@ == l,
            None => r is None,
        },
{
    let e = utf8_lossy(stderr);
    let text = if trim(e.as_str()).as_str().is_empty() {
        utf8_lossy(stdout)
    } else {
        e
    };
    let v = chars_of(text.as_str());
    if v.len() == 0 {
        return None;
    }
    let mut p: usize = 0;
    while p < v.len() && v[p] != '\n'
        invariant
            p <= v@.len(),
            v@ == text@,
            first_index_of(text@, '\n', 0) == first_index_of(text@, '\n', p as int),
        decreases v@.len() - p,
    {
        p += 1;
    }
    let mut line: Vec<char> = Vec::new();
    let mut i: usize = 0;
    while i < p
        invariant
            i <= p <= v@.len(),
            line@ == v@.take(i as int),
        decreases p - i,
    {
        line.push(v[i]);
        assert(v@.take(i + 1) =~= v@.take(i as int).push(v@[i as int]));
        i += 1;
    }
    proof {
        if p == v@.len() {
            assert(v@.take(p as int) =~= v@);
        }
    }
    Some(trim(string_of(&line).as_str()))
}

// ----- running the backends -----

/// The next progress of the Bedrock-to-Java run, one step per output line:
/// from 31 up to 64, then back to 31.
pub fn je2be_progress(progress: i32) -> (r: i32)
    requires
        30 <= progress <= 64,
    ensures
        r == if progress + 1 > 64 { 31 } else { progress + 1 },
        31 <= r <= 64,
{
    let next = progress + 1;
    if next > 64 {
        31
    } else {
        next
    }
}

/// The number of worker threads of the Bedrock-to-Java run: the available
/// parallelism (4 when unknown), between 2 and 16.
pub fn je2be_threads(available: Option<usize>) -> (r: usize)
    ensures
        ({
            let n = match available {
                Some(n) => n as int,
                None => 4,
            };
            r == if n < 2 { 2 } else if n > 16 { 16 } else { n }
        }),
{
    let n = match available {
        Some(n) => n,
        None => 4,
    };
    if n < 2 {
        2
    } else if n > 16 {
        16
    } else {
        n
    }
}

/// The arguments of the Bedrock-to-Java run.
pub fn je2be_args(input: &str, output: &str, threads: usize) -> (r: Vec<String>)
    ensures
        r@.map_values(|s: String| s@) == seq![
            "-i"@,
            input@,
            "-o"@,
            output@,
            "-n"@,
            dec_int(threads as int),
        ],
{
    let mut v: Vec<String> = Vec::new();
    v.push("-i".to_owned());
    v.push(string_of(&chars_of(input)));
    v.push("-o".to_owned());
    v.push(string_of(&chars_of(output)));
    v.push("-n".to_owned());
    v.push(dec_string_u64(threads as u64));
    assert(v@.map_values(|s: String| s@) =~= seq!["-i"@, input@, "-o"@, output@, "-n"@, dec_int(threads as int)]);
    v
}

/// The arguments of the cross-version run, with a heap of `heap_gb` GiB.
pub fn chunker_args(heap_gb: u64, chunker: &str, input: &str, output: &str, format: &str) -> (r: Vec<String>)
    ensures
        r@.map_values(|s: String| s@) == seq![
            "-Xms512m"@,
            "-Xmx"@ + dec_int(heap_gb as int) + "G"@,
            "-jar"@,
            chunker@,
            "-i"@,
            input@,
            "-o"@,
            output@,
            "-f"@,
            format@,
        ],
{
    let mut heap = "-Xmx".to_owned();
    push_str(&mut heap, dec_string_u64(heap_gb).as_str());
    push_str(&mut heap, "G");
    let mut v: Vec<String> = Vec::new();
    v.push("-Xms512m".to_owned());
    v.push(heap);
    v.push("-jar".to_owned());
    v.push(string_of(&chars_of(chunker)));
    v.push("-i".to_owned());
    v.push(string_of(&chars_of(input)));
    v.push("-o".to_owned());
    v.push(string_of(&chars_of(output)));
    v.push("-f".to_owned());
    v.push(string_of(&chars_of(format)));
    assert(v@.map_values(|s: String| s@) =~= seq![
        "-Xms512m"@,
        "-Xmx"@ + dec_int(heap_gb as int) + "G"@,
        "-jar"@,
        chunker@,
        "-i"@,
        input@,
        "-o"@,
        output@,
        "-f"@,
        format@,
    ]);
    v
}

/// The whitespace-separated tokens of a line, in order.
pub open spec fn ws_tokens(s: Seq<char>) -> Seq<Seq<char>>
    decreases s.len(),
{
    if s.len() == 0 {
        Seq::empty()
    } else {
        let rest = ws_tokens(s.drop_last());
        let c = s.last();
        if is_ws(c) {
            rest
        } else if s.len() >= 2 && !is_ws(s[s.len() - 2]) {
            rest.drop_last().push(rest.last().push(c))
        } else {
            rest.push(seq![c])
        }
    }
}

/// `t` without its trailing `%` signs.
pub open spec fn strip_percent(t: Seq<char>) -> Seq<char>
    decreases t.len(),
{
    if t.len() > 0 && t.last() == '%' {
        strip_percent(t.drop_last())
    } else {
        t
    }
}

/// The percentage that a token states: it ends with `%`, and what comes
/// before the signs parses as a `u32`.
pub open spec fn token_percent(t: Seq<char>) -> Option<int> {
    if t.len() > 0 && t.last() == '%' {
        parse_unsigned(strip_percent(t), u32::MAX as int)
    } else {
        None
    }
}

/// The first percentage stated on a line of the cross-version backend.
pub open spec fn first_percent(ts: Seq<Seq<char>>) -> Option<int>
    decreases ts.len(),
{
    if ts.len() == 0 {
        None
    } else {
        match token_percent(ts[0]) {
            Some(p) => Some(p),
            None => first_percent(ts.drop_first()),
        }
    }
}

/// The overall progress for a percentage of the cross-version run: 64 to 84.
pub open spec fn chunker_mapped(percent: int) -> int {
    64 + if percent * 20 / 100 < 20 { percent * 20 / 100 } else { 20 }
}

proof fn lemma_tokens_nonempty(s: Seq<char>)
    ensures
        forall|i: int| 0 <= i < ws_tokens(s).len() ==> #[trigger] ws_tokens(s)[i].len() > 0,
        s.len() > 0 && !is_ws(s.last()) ==> ws_tokens(s).len() > 0,
    decreases s.len(),
{
    if s.len() > 0 {
        let t = s.drop_last();
        lemma_tokens_nonempty(t);
        let rest = ws_tokens(t);
        let c = s.last();
        if !is_ws(c) && s.len() >= 2 && !is_ws(s[s.len() - 2]) {
            assert(t.last() == s[s.len() - 2]);
            assert(rest.len() > 0);
            let r = rest.drop_last().push(rest.last().push(c));
            assert forall|i: int| 0 <= i < r.len() implies #[trigger] r[i].len() > 0 by {
                if i < r.len() - 1 {
                    assert(r[i] == rest[i]);
                }
            }
        } else if !is_ws(c) {
            let r = rest.push(seq![c]);
            assert forall|i: int| 0 <= i < r.len() implies #[trigger] r[i].len() > 0 by {
                if i < r.len() - 1 {
                    assert(r[i] == rest[i]);
                }
            }
        }
    }
}

/// The tokens of a line (see `ws_tokens`).
fn split_ws(line: &str) -> (r: Vec<String>)
    ensures
        r@.map_values(|s: String| s@) == ws_tokens(line@),
{
    let v = chars_of(line);
    let mut out: Vec<String> = Vec::new();
    let mut cur: Vec<char> = Vec::new();
    let mut i: usize = 0;
    while i < v.len()
        invariant
            i <= v@.len(),
            v@ == line@,
            (i == 0 || is_ws(v@[i - 1])) ==> cur@.len() == 0 && out@.map_values(|s: String| s@) == ws_tokens(
                v@.take(i as int),
            ),
            (i > 0 && !is_ws(v@[i - 1])) ==> cur@.len() > 0 && out@.map_values(|s: String| s@).push(cur@)
                == ws_tokens(v@.take(i as int)),
        decreases v@.len() - i,
    {
        let c = v[i];
        let ghost ts = ws_tokens(v@.take(i as int));
        assert(v@.take(i + 1).drop_last() =~= v@.take(i as int));
        assert(v@.take(i + 1).last() == c);
        proof {
            lemma_tokens_nonempty(v@.take(i as int));
            if i > 0 {
                assert(v@.take(i + 1)[i - 1] == v@[i - 1]);
            }
        }
        if crate::text::char_is_ws(c) {
            if cur.len() > 0 {
                let ghost ob = out@.map_values(|s: String| s@);
                out.push(string_of(&cur));
                assert(out@.map_values(|s: String| s@) =~= ob.push(cur@));
                cur = Vec::new();
            }
        } else {
            let ghost before_cur = cur@;
            cur.push(c);
            proof {
                if i > 0 && !is_ws(v@[i - 1]) {
                    let ob = out@.map_values(|s: String| s@);
                    assert(ob.push(before_cur).drop_last() =~= ob);
                    assert(ob.push(cur@) =~= ts.drop_last().push(ts.last().push(c)));
                } else {
                    assert(cur@ =~= seq![c]);
                }
            }
        }
        i += 1;
    }
    assert(v@.take(v@.len() as int) =~= v@);
    if cur.len() > 0 {
        out.push(string_of(&cur));
    }
    out
}

/// Reads a line of the cross-version backend: the first token that states a
/// percentage gives the overall progress (64 to 84) and the percentage.
pub fn chunker_progress(line: &str) -> (r: Option<(i32, u32)>)
    ensures
        match first_percent(ws_tokens(line@)) {
            Some(p) => r == Some((chunker_mapped(p) as i32, p as u32)),
            None => r is None,
        },
{
    let tokens = split_ws(line);
    let ghost ts = ws_tokens(line@);
    let mut i: usize = 0;
    assert(ts.skip(0) =~= ts);
    while i < tokens.len()
        invariant
            i <= tokens@.len(),
            tokens@.map_values(|s: String| s@) == ts,
            ts == ws_tokens(line@),
            first_percent(ts) == first_percent(ts.skip(i as int)),
        decreases tokens@.len() - i,
    {
        let t = chars_of(tokens[i].as_str());
        assert(ts.skip(i as int)[0] == t@);
        assert(ts.skip(i as int).drop_first() =~= ts.skip(i + 1));
        if t.len() > 0 && t[t.len() - 1] == '%' {
            let mut end = t.len();
            assert(t@.take(t@.len() as int) =~= t@);
            while end > 0 && t[end - 1] == '%'
                invariant
                    end <= t@.len(),
                    strip_percent(t@) == strip_percent(t@.take(end as int)),
                decreases end,
            {
                assert(t@.take(end as int).drop_last() =~= t@.take(end - 1));
                end -= 1;
            }
            let mut number: Vec<char> = Vec::new();
            let mut k: usize = 0;
            while k < end
                invariant
                    k <= end <= t@.len(),
                    number@ == t@.take(k as int),
                decreases end - k,
            {
                number.push(t[k]);
                assert(t@.take(k + 1) =~= t@.take(k as int).push(t@[k as int]));
                k += 1;
            }
            proof {
                assert(t@.take(t@.len() as int) =~= t@);
                assert(number@ == strip_percent(t@)) by {
                    assert(strip_percent(t@.take(end as int)) == t@.take(end as int));
                }
                crate::text::lemma_parse_unsigned_range(strip_percent(t@), u32::MAX as int);
            }
            let num = string_of(&number);
            match parse_u32(num.as_str()) {
                Some(p) => {
                    assert(num@ == strip_percent(t@));
                    assert(token_percent(t@) == Some(p as int));
                    assert(first_percent(ts.skip(i as int)) == Some(p as int));
                    let scaled: u64 = (p as u64) * 20 / 100;
                    let capped: u64 = if scaled < 20 { scaled } else { 20 };
                    assert(capped + 64 == chunker_mapped(p as int));
                    return Some(((64 + capped) as i32, p));
                },
                None => {},
            }
        }
        i += 1;
    }
    None
}

/// Keeps the last 30 lines of a backend's output.
pub fn push_recent(lines: &mut Vec<String>, line: String)
    requires
        old(lines)@.len() <= 30,
    ensures
        final(lines)@.len() <= 30,
        final(lines)@ == if old(lines)@.len() == 30 {
            old(lines)@.push(line).drop_first()
        } else {
            old(lines)@.push(line)
        },
{
    lines.push(line);
    if lines.len() > 30 {
        let _ = lines.remove(0);
        assert(old(lines)@.push(line).remove(0) =~= old(lines)@.push(line).drop_first());
    }
}

/// The name under which a backend program is reported: its file name, or
/// its whole path as shown.
pub fn program_name(program: &Vec<String>, shown: &str) -> (r: String)
    ensures
        r@ == if file_name_of(parts(program@)).len() > 0 { file_name_of(parts(program@)) } else { shown@ },
{
    let n = file_name(program);
    if n.as_str().is_empty() {
        string_of(&chars_of(shown))
    } else {
        n
    }
}

/// How a backend process ended.
#[derive(Debug, Clone, Copy, PartialEq, Eq, Structural)]
pub enum ExitStatus {
    /// It ended with success.
    Success,
    /// It ended with failure, with an exit code when it had one.
    Failure(Option<i32>),
    /// Its end could not be observed.
    Lost,
}

/// The answer for a backend process that ended: nothing on success, else a
/// failure naming the program, its exit code (or -1) and its last lines.
pub open spec fn process_outcome_of(name: Seq<char>, status: ExitStatus, recent: Seq<Seq<char>>) -> Result<(), Seq<char>> {
    match status {
        ExitStatus::Success => Ok(()),
        ExitStatus::Failure(code) => Err(
            name + " 退出码 "@ + dec_int(
                match code {
                    Some(c) => c as int,
                    None => -1,
                },
            ) + "；最近输出：\n"@ + joined_with(recent, "\n"@),
        ),
        ExitStatus::Lost => Err(name + " 进程异常结束"@),
    }
}

/// The answer for a backend process that ended (see `process_outcome_of`).
pub fn process_outcome(name: &str, status: ExitStatus, recent: &Vec<String>) -> (r: Result<(), ConversionError>)
    ensures
        match process_outcome_of(name@, status, recent@.map_values(|s: String| s@)) {
            Ok(()) => r is Ok,
            Err(m) => fails_with(r, m),
        },
{
    match status {
        ExitStatus::Success => Ok(()),
        ExitStatus::Failure(code) => {
            let c: i64 = match code {
                Some(c) => c as i64,
                None => -1,
            };
            let mut m = string_of(&chars_of(name));
            push_str(&mut m, " 退出码 ");
            push_str(&mut m, crate::text::dec_string(c).as_str());
            push_str(&mut m, "；最近输出：\n");
            push_str(&mut m, join_with(recent, "\n").as_str());
            Err(ConversionError::new(CODE_ERROR, m))
        },
        ExitStatus::Lost => {
            let mut m = string_of(&chars_of(name));
            push_str(&mut m, " 进程异常结束");
            Err(ConversionError::new(CODE_ERROR, m))
        },
    }
}

/// The failure when a backend program cannot be started.
pub fn spawn_failure(name: &str, reason: &str) -> (r: ConversionError)
    ensures
        r.code@ == CODE_ERROR@,
        r.message@ == "无法启动 "@ + name@ + "："@ + reason@,
{
    let mut m = "无法启动 ".to_owned();
    push_str(&mut m, name);
    push_str(&mut m, "：");
    push_str(&mut m, reason);
    ConversionError::new(CODE_ERROR, m)
}

/// How long a backend may go without printing a line before it is taken
/// for hung: ten minutes, in milliseconds.
pub const IDLE_LIMIT_MS: u64 = 600000;

/// What happened while a backend runs, as the caller observed it.
pub enum ProcEvent {
    /// The backend printed a line.
    Line(String),
    /// The handler of the previous line refused it with this error.
    HandlerFailed(ConversionError),
    /// No line came within the polling interval.
    Tick,
    /// The backend ended.
    Exited(ExitStatus),
}

/// What the caller does next. Both `Terminate` and `Finish` end the run: the
/// caller then stops tracking the process handle.
pub enum ProcAction {
    /// Keep reading.
    Continue,
    /// Kill the process, release its handle and fail with this error.
    Terminate(ConversionError),
    /// Release the handle and answer with this result.
    Finish(Result<(), ConversionError>),
}

/// The message when a backend has been silent for too long.
pub open spec fn hang_message(program: Seq<char>) -> Seq<char> {
    program + " 超过 10 分钟没有输出，已判定为卡死并终止"@
}

/// The message when the user cancels.
pub open spec fn cancelled_message() -> Seq<char> {
    "操作已取消"@
}

/// `r` is the answer `process_outcome_of` gives.
pub open spec fn outcome_matches(r: Result<(), ConversionError>, o: Result<(), Seq<char>>) -> bool {
    match o {
        Ok(()) => r is Ok,
        Err(m) => fails_with(r, m),
    }
}

/// One step of running a backend: the decision after each event. An ended
/// process is answered by its exit status and last lines, even when a
/// cancellation is pending; a refused line kills it with the handler's error;
/// otherwise a cancellation kills it, and so does `IDLE_LIMIT_MS` of silence.
/// A line is kept among the last ones.
pub fn process_step(recent: &mut Vec<String>, event: ProcEvent, cancelled: bool, idle_ms: u64, program: &str) -> (a: ProcAction)
    requires
        old(recent)@.len() <= 30,
    ensures
        final(recent)@.len() <= 30,
        match event {
            ProcEvent::Line(l) => final(recent)@ == if old(recent)@.len() == 30 {
                old(recent)@.push(l).drop_first()
            } else {
                old(recent)@.push(l)
            },
            _ => final(recent)@ == old(recent)@,
        },
        match event {
            ProcEvent::Exited(s) => (a matches ProcAction::Finish(r) && outcome_matches(
                r,
                process_outcome_of(program@, s, old(recent)@.map_values(|x: String| x@)),
            )),
            ProcEvent::HandlerFailed(e) => a == ProcAction::Terminate(e),
            _ => if cancelled {
                (a matches ProcAction::Terminate(e) && is_error(e, CODE_CANCELLED@, cancelled_message()))
            } else if idle_ms >= IDLE_LIMIT_MS {
                (a matches ProcAction::Terminate(e) && is_error(e, CODE_TIMEOUT@, hang_message(program@)))
            } else {
                a is Continue
            },
        },
{
    let mut handler_error: Option<ConversionError> = None;
    let mut exited: Option<ExitStatus> = None;
    match event {
        ProcEvent::Line(l) => {
            push_recent(recent, l);
        },
        ProcEvent::HandlerFailed(e) => {
            handler_error = Some(e);
        },
        ProcEvent::Tick => {},
        ProcEvent::Exited(s) => {
            exited = Some(s);
        },
    }
    match exited {
        Some(s) => {
            return ProcAction::Finish(process_outcome(program, s, recent));
        },
        None => {},
    }
    match handler_error {
        Some(e) => {
            return ProcAction::Terminate(e);
        },
        None => {},
    }
    if cancelled {
        return ProcAction::Terminate(ConversionError::new(CODE_CANCELLED, "操作已取消".to_owned()));
    }
    if idle_ms >= IDLE_LIMIT_MS {
        let mut m = string_of(&chars_of(program));
        push_str(&mut m, " 超过 10 分钟没有输出，已判定为卡死并终止");
        return ProcAction::Terminate(ConversionError::new(CODE_TIMEOUT, m));
    }
    ProcAction::Continue
}

/// A backend run must leave a `level.dat` in its output directory.
pub fn check_backend_output(backend: Backend, has_level_dat: bool) -> (r: Result<(), ConversionError>)
    ensures
        has_level_dat ==> r is Ok,
        !has_level_dat && backend == Backend::Chunker ==> fails_with(r, "Chunker 进程已结束，但输出目录缺少 level.dat"@),
        !has_level_dat && backend != Backend::Chunker ==> fails_with(r, "b2j 进程已结束，但输出目录缺少 level.dat"@),
{
    if has_level_dat {
        Ok(())
    } else if backend == Backend::Chunker {
        Err(ConversionError::new(CODE_ERROR, "Chunker 进程已结束，但输出目录缺少 level.dat".to_owned()))
    } else {
        Err(ConversionError::new(CODE_ERROR, "b2j 进程已结束，但输出目录缺少 level.dat".to_owned()))
    }
}



// ----- laws -----

/// A list of targets is newest first: no entry is newer than one before it.
pub open spec fn newest_first(s: Seq<(Version, Seq<char>)>) -> bool {
    forall|i: int, j: int| 0 <= i < j < s.len() ==> !newer(#[trigger] s[j].0, #[trigger] s[i].0)
}

proof fn lemma_newer_facts(a: Version, b: Version, c: Version)
    ensures
        newer(a, b) ==> !newer(b, a),
        !newer(a, b) && !newer(b, a) ==> a == b,
        newer(a, b) && newer(b, c) ==> newer(a, c),
        !newer(a, b) && !newer(b, c) ==> !newer(a, c),
        !newer(a, b) ==> newer(b, a) || a == b,
{
}

proof fn lemma_insert_desc_sorted(s: Seq<(Version, Seq<char>)>, x: (Version, Seq<char>))
    requires
        newest_first(s),
    ensures
        newest_first(insert_desc(s, x)),
        insert_desc(s, x).len() == s.len() + 1,
        forall|k: int| 0 <= k < insert_desc(s, x).len() ==> #[trigger] insert_desc(s, x)[k] == x || s.contains(
            insert_desc(s, x)[k],
        ),
    decreases s.len(),
{
    let r = insert_desc(s, x);
    if s.len() == 0 {
    } else if !newer(x.0, s.last().0) {
        assert forall|i: int, j: int| 0 <= i < j < r.len() implies !newer(#[trigger] r[j].0, #[trigger] r[i].0) by {
            if j == r.len() - 1 {
                lemma_newer_facts(x.0, s.last().0, s[i].0);
                if i < s.len() - 1 {
                    assert(!newer(s[s.len() - 1].0, s[i].0));
                }
            }
        }
        assert forall|k: int| 0 <= k < r.len() implies #[trigger] r[k] == x || s.contains(r[k]) by {
            if k < s.len() {
                assert(s[k] == r[k]);
            }
        }
    } else {
        let t = s.drop_last();
        assert(newest_first(t)) by {
            assert forall|i: int, j: int| 0 <= i < j < t.len() implies !newer(#[trigger] t[j].0, #[trigger] t[i].0) by {
                assert(t[i] == s[i] && t[j] == s[j]);
            }
        }
        lemma_insert_desc_sorted(t, x);
        let q = insert_desc(t, x);
        assert forall|i: int, j: int| 0 <= i < j < r.len() implies !newer(#[trigger] r[j].0, #[trigger] r[i].0) by {
            if j == r.len() - 1 {
                assert(r[j] == s.last());
                assert(r[i] == q[i]);
                if q[i] == x {
                    lemma_newer_facts(x.0, s.last().0, x.0);
                } else {
                    assert(t.contains(q[i]));
                    let w = choose|w: int| 0 <= w < t.len() && t[w] == q[i];
                    assert(s[w] == q[i]);
                    assert(!newer(s[s.len() - 1].0, s[w].0));
                }
            } else {
                assert(r[i] == q[i] && r[j] == q[j]);
            }
        }
        assert forall|k: int| 0 <= k < r.len() implies #[trigger] r[k] == x || s.contains(r[k]) by {
            if k == r.len() - 1 {
                assert(s[s.len() - 1] == r[k]);
            } else {
                assert(r[k] == q[k]);
                if q[k] != x {
                    let w = choose|w: int| 0 <= w < t.len() && t[w] == q[k];
                    assert(s[w] == r[k]);
                }
            }
        }
    }
}

/// The targets read from the backend are listed newest first.
pub proof fn law_targets_newest_first(s: Seq<(Version, Seq<char>)>)
    ensures
        newest_first(sort_desc(s)),
        sort_desc(s).len() == s.len(),
    decreases s.len(),
{
    if s.len() > 0 {
        law_targets_newest_first(s.drop_last());
        lemma_insert_desc_sorted(sort_desc(s.drop_last()), s.last());
    }
}


/// A number's decimal rendering holds no `_`.
proof fn lemma_digits_no_underscore(n: nat)
    ensures
        forall|i: int| 0 <= i < dec_nat(n).len() ==> dec_nat(n)[i] != '_',
{
    lemma_dec_nat_digits(n);
    assert forall|i: int| 0 <= i < dec_nat(n).len() implies dec_nat(n)[i] != '_' by {
        assert(all_digits(dec_nat(n)));
        assert(crate::text::is_digit(dec_nat(n)[i]));
    }
}

/// The backend token of every supported target version reads back as that
/// version.
pub proof fn law_target_token_round_trip(v: Version)
    requires
        v.patch >= 0,
        (v.major == 26 && 0 <= v.minor <= 3) || (v.major == 1 && 12 <= v.minor <= 21),
    ensures
        target_of(chunker_format_of(v)) == Some(v),
{
    let java = seq!['J', 'A', 'V', 'A'];
    reveal_strlit("JAVA_");
    assert("JAVA_"@ =~= java + seq!['_']);
    let major = dec_nat(v.major as nat);
    let minor = dec_nat(v.minor as nat);
    let patch = dec_nat(v.patch as nat);
    assert(dec_int(v.major as int) == major);
    assert(dec_int(v.minor as int) == minor);
    assert(dec_int(v.patch as int) == patch);
    lemma_digits_no_underscore(v.major as nat);
    lemma_digits_no_underscore(v.minor as nat);
    lemma_digits_no_underscore(v.patch as nat);
    lemma_parse_dec_nat(v.major as nat);
    lemma_parse_dec_nat(v.minor as nat);
    lemma_parse_dec_nat(v.patch as nat);
    assert forall|i: int| 0 <= i < java.len() implies java[i] != '_' by {}
    let tail = if v.patch > 0 {
        minor + seq!['_'] + patch
    } else {
        minor
    };
    let token = chunker_format_of(v);
    assert(token =~= java + seq!['_'] + (major + seq!['_'] + tail));
    lemma_split_piece(java, major + seq!['_'] + tail, '_');
    lemma_split_piece(major, tail, '_');
    let rest = if v.patch > 0 {
        lemma_split_piece(minor, patch, '_');
        lemma_split_single(patch, '_');
        seq![minor, patch]
    } else {
        lemma_split_single(minor, '_');
        seq![minor]
    };
    assert(split_on(tail, '_') == rest);
    let ps = split_on(token, '_');
    assert(ps =~= seq![java] + (seq![major] + rest));
    assert(ps[1] == major && ps[2] == minor);
    if v.patch > 0 {
        assert(ps.len() == 4 && ps[3] == patch);
    } else {
        assert(ps.len() == 3);
    }
}

} // verus!
