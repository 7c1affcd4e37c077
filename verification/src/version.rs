//! Java version numbers: finding one in text, comparing two, naming one in
//! the conversion backend's format.

use crate::text::{chars_of, dec_int, dec_string, parse_i32, parse_i32_spec, push_str, string_of};
use vstd::prelude::*;

verus! {

/// A Java edition version `major.minor.patch`.
#[derive(Debug, Clone, Copy, PartialEq, Eq, PartialOrd, Ord, Hash, Structural)]
pub struct Version {
    pub major: i32,
    pub minor: i32,
    pub patch: i32,
}

/// The version that the Bedrock backend always produces; Bedrock worlds are
/// converted to it first.
pub open spec fn je2be_intermediate_spec() -> Version {
    Version { major: 1, minor: 21, patch: 10 }
}

/// The version that the Bedrock backend always produces.
pub fn je2be_intermediate() -> (r: Version)
    ensures
        r == je2be_intermediate_spec(),
{
    Version { major: 1, minor: 21, patch: 10 }
}

/// `a` is newer than `b`: the components compared in order.
pub open spec fn newer(a: Version, b: Version) -> bool {
    a.major > b.major || (a.major == b.major && (a.minor > b.minor || (a.minor == b.minor && a.patch > b.patch)))
}

/// Whether `a` is newer than `b`.
pub fn is_newer(a: Version, b: Version) -> (r: bool)
    ensures
        r == newer(a, b),
{
    a.major > b.major || (a.major == b.major && (a.minor > b.minor || (a.minor == b.minor && a.patch > b.patch)))
}

/// `1.21.10`, or `1.21` when the patch is 0 or less.
pub open spec fn version_text(v: Version) -> Seq<char> {
    if v.patch > 0 {
        dec_int(v.major as int) + seq!['.'] + dec_int(v.minor as int) + seq!['.'] + dec_int(v.patch as int)
    } else {
        dec_int(v.major as int) + seq!['.'] + dec_int(v.minor as int)
    }
}

impl Version {
    /// The version as text (see `version_text`).
    pub fn to_text(&self) -> (r: String)
        ensures
            r@ == version_text(*self),
    {
        let mut s = dec_string(self.major as i64);
        let dot = ".";
        assert(dot@ == seq!['.']) by {
            reveal_strlit(".");
        }
        push_str(&mut s, dot);
        let minor = dec_string(self.minor as i64);
        push_str(&mut s, minor.as_str());
        if self.patch > 0 {
            push_str(&mut s, dot);
            let patch = dec_string(self.patch as i64);
            push_str(&mut s, patch.as_str());
        }
        s
    }
}

/// The backend's name for a version: `JAVA_1_21_10`, or `JAVA_1_21` when
/// the patch is 0 or less.
pub open spec fn chunker_format_of(v: Version) -> Seq<char> {
    if v.patch > 0 {
        "JAVA_"@ + dec_int(v.major as int) + seq!['_'] + dec_int(v.minor as int) + seq!['_'] + dec_int(v.patch as int)
    } else {
        "JAVA_"@ + dec_int(v.major as int) + seq!['_'] + dec_int(v.minor as int)
    }
}

/// The backend's name for a version.
pub fn chunker_format(version: Version) -> (r: String)
    ensures
        r@ == chunker_format_of(version),
{
    let mut s = "JAVA_".to_owned();
    let sep = "_";
    assert(sep@ == seq!['_']) by {
        reveal_strlit("_");
    }
    let major = dec_string(version.major as i64);
    push_str(&mut s, major.as_str());
    push_str(&mut s, sep);
    let minor = dec_string(version.minor as i64);
    push_str(&mut s, minor.as_str());
    if version.patch > 0 {
        push_str(&mut s, sep);
        let patch = dec_string(version.patch as i64);
        push_str(&mut s, patch.as_str());
    }
    s
}

// ----- splitting on a separator -----

/// The pieces of `s` between occurrences of `sep`, as `str::split` gives them.
pub open spec fn split_on(s: Seq<char>, sep: char) -> Seq<Seq<char>>
    decreases s.len(),
{
    if s.len() == 0 {
        seq![Seq::empty()]
    } else {
        let rest = split_on(s.drop_first(), sep);
        if s[0] == sep {
            seq![Seq::<char>::empty()] + rest
        } else {
            rest.update(0, seq![s[0]] + rest[0])
        }
    }
}

/// `str::split` yields at least one piece.
pub proof fn lemma_split_nonempty(s: Seq<char>, sep: char)
    ensures
        split_on(s, sep).len() >= 1,
    decreases s.len(),
{
    if s.len() > 0 {
        lemma_split_nonempty(s.drop_first(), sep);
    }
}

/// A piece without the separator joins the first piece of what follows it.
pub proof fn lemma_split_plain(a: Seq<char>, rest: Seq<char>, sep: char)
    requires
        forall|i: int| 0 <= i < a.len() ==> a[i] != sep,
    ensures
        split_on(a + rest, sep) == split_on(rest, sep).update(0, a + split_on(rest, sep)[0]),
    decreases a.len(),
{
    lemma_split_nonempty(rest, sep);
    let r = split_on(rest, sep);
    if a.len() == 0 {
        assert(a + rest =~= rest);
        assert(r.update(0, a + r[0]) =~= r);
    } else {
        let t = a.drop_first();
        lemma_split_plain(t, rest, sep);
        assert((a + rest).drop_first() =~= t + rest);
        assert((a + rest)[0] == a[0]);
        let q = split_on(t + rest, sep);
        assert(q == r.update(0, t + r[0]));
        assert(seq![a[0]] + (t + r[0]) =~= a + r[0]);
        assert(q.update(0, seq![a[0]] + q[0]) =~= r.update(0, a + r[0]));
    }
}

/// Splitting `a`, the separator, then `rest`, where `a` holds no separator,
/// gives `a` followed by the pieces of `rest`.
pub proof fn lemma_split_piece(a: Seq<char>, rest: Seq<char>, sep: char)
    requires
        forall|i: int| 0 <= i < a.len() ==> a[i] != sep,
    ensures
        split_on(a + seq![sep] + rest, sep) == seq![a] + split_on(rest, sep),
{
    let tail = seq![sep] + rest;
    assert(a + seq![sep] + rest =~= a + tail);
    lemma_split_plain(a, tail, sep);
    assert(tail.drop_first() =~= rest);
    let r = split_on(rest, sep);
    assert(split_on(tail, sep) == seq![Seq::<char>::empty()] + r);
    assert((seq![Seq::<char>::empty()] + r).update(0, a + Seq::<char>::empty()) =~= seq![a] + r);
    assert(a + Seq::<char>::empty() =~= a);
}

/// A text without the separator is a single piece.
pub proof fn lemma_split_single(a: Seq<char>, sep: char)
    requires
        forall|i: int| 0 <= i < a.len() ==> a[i] != sep,
    ensures
        split_on(a, sep) == seq![a],
{
    lemma_split_plain(a, Seq::<char>::empty(), sep);
    assert(a + Seq::<char>::empty() =~= a);
    assert(seq![Seq::<char>::empty()].update(0, a + Seq::<char>::empty()) =~= seq![a]);
}

/// `str::split` on one character.
pub fn split_char(s: &str, sep: char) -> (r: Vec<String>)
    ensures
        r@.len() == split_on(s@, sep).len(),
        forall|i: int| 0 <= i < r@.len() ==> (#[trigger] r@[i])@ == split_on(s@, sep)[i],
{
    let v = chars_of(s);
    let mut pieces: Vec<Vec<char>> = Vec::new();
    pieces.push(Vec::new());
    let mut i = v.len();
    proof {
        assert(v@.skip(v@.len() as int) =~= Seq::<char>::empty());
    }
    while i > 0
        invariant
            i <= v@.len(),
            v@ == s@,
            pieces@.len() >= 1,
            pieces@.len() == split_on(v@.skip(i as int), sep).len(),
            forall|k: int| 0 <= k < pieces@.len() ==> (#[trigger] pieces@[k])@ == split_on(v@.skip(i as int), sep)[pieces@.len() - 1 - k],
        decreases i,
    {
        let ghost old_pieces = pieces@;
        let ghost after = v@.skip(i as int);
        let ghost here = v@.skip(i - 1);
        assert(here.drop_first() =~= after);
        assert(here[0] == v@[i - 1]);
        let c = v[i - 1];
        if c == sep {
            pieces.push(Vec::new());
            proof {
                let r = split_on(here, sep);
                assert(r == seq![Seq::<char>::empty()] + split_on(after, sep));
                assert forall|k: int| 0 <= k < pieces@.len() implies (#[trigger] pieces@[k])@ == r[pieces@.len() - 1 - k] by {
                    if k < old_pieces.len() {
                        assert(pieces@[k] == old_pieces[k]);
                    }
                }
            }
        } else {
            let last = pieces.len() - 1;
            let mut cur = pieces.pop().unwrap();
            let mut fresh: Vec<char> = Vec::new();
            fresh.push(c);
            let mut j: usize = 0;
            while j < cur.len()
                invariant
                    j <= cur@.len(),
                    fresh@ == seq![c] + cur@.take(j as int),
                decreases cur@.len() - j,
            {
                fresh.push(cur[j]);
                assert(cur@.take(j as int).push(cur@[j as int]) =~= cur@.take(j + 1));
                assert(seq![c] + cur@.take(j + 1) =~= (seq![c] + cur@.take(j as int)).push(cur@[j as int]));
                j += 1;
            }
            assert(cur@.take(cur@.len() as int) =~= cur@);
            pieces.push(fresh);
            proof {
                lemma_split_nonempty(after, sep);
                let r = split_on(here, sep);
                let ra = split_on(after, sep);
                assert(r == ra.update(0, seq![c] + ra[0]));
                assert forall|k: int| 0 <= k < pieces@.len() implies (#[trigger] pieces@[k])@ == r[pieces@.len() - 1 - k] by {
                    if k < last as int {
                        assert(pieces@[k] == old_pieces[k]);
                    }
                }
            }
        }
        i -= 1;
    }
    assert(v@.skip(0) =~= v@);
    let mut out: Vec<String> = Vec::new();
    let mut k = pieces.len();
    while k > 0
        invariant
            k <= pieces@.len(),
            pieces@.len() == split_on(s@, sep).len(),
            forall|x: int| 0 <= x < pieces@.len() ==> (#[trigger] pieces@[x])@ == split_on(s@, sep)[pieces@.len() - 1 - x],
            out@.len() == pieces@.len() - k,
            forall|x: int| 0 <= x < out@.len() ==> (#[trigger] out@[x])@ == split_on(s@, sep)[x],
        decreases k,
    {
        let piece = string_of(&pieces[k - 1]);
        out.push(piece);
        k -= 1;
    }
    out
}

// ----- finding a version in text -----

/// What the regex crate finds, as the text of the leftmost-first match of
/// `pattern` in `text`.
pub uninterp spec fn spec_regex_find(pattern: Seq<char>, text: Seq<char>) -> Option<Seq<char>>;

/// `regex::Regex::find`: the text of the leftmost-first match of `pattern`
/// in `text`, or `None` when there is no match or the pattern does not
/// compile. Which substring matches is the regex engine's; the contract
/// names it without restating the engine.
#[verifier::external_body]
fn regex_find(pattern: &str, text: &str) -> (r: Option<String>)
    ensures
        match r {
            Some(m) => spec_regex_find(pattern@, text@) == Some(m@),
            None => spec_regex_find(pattern@, text@) is None,
        },
{
    match regex::Regex::new(pattern) {
        Ok(re) => match re.find(text) {
            Some(m) => Some(m.as_str().to_string()),
            None => None,
        },
        Err(_) => None,
    }
}

/// The pattern of a version number: `26.x` or `1.x`, with an optional third
/// component.
pub open spec fn version_pattern() -> Seq<char> {
    "(?:26|1)\\.\\d+(?:\\.\\d+)?"@
}

/// The version that a matched text names: its first two dot-separated
/// pieces must parse as numbers; a third piece that does not parse counts
/// as 0.
pub open spec fn version_of_match(m: Seq<char>) -> Option<Version> {
    let parts = split_on(m, '.');
    match parse_i32_spec(parts[0]) {
        None => None,
        Some(major) => if parts.len() < 2 {
            None
        } else {
            match parse_i32_spec(parts[1]) {
                None => None,
                Some(minor) => {
                    let patch = if parts.len() >= 3 {
                        match parse_i32_spec(parts[2]) {
                            Some(p) => p,
                            None => 0,
                        }
                    } else {
                        0
                    };
                    Some(Version { major: major as i32, minor: minor as i32, patch: patch as i32 })
                },
            }
        },
    }
}

/// The version that a matched version text names (see `version_of_match`).
pub fn version_from_match(matched: &str) -> (r: Option<Version>)
    ensures
        r == version_of_match(matched@),
{
    let parts = split_char(matched, '.');
    proof {
        lemma_split_nonempty(matched@, '.');
    }
    let major = match parse_i32(parts[0].as_str()) {
        Some(x) => x,
        None => return None,
    };
    if parts.len() < 2 {
        return None;
    }
    let minor = match parse_i32(parts[1].as_str()) {
        Some(x) => x,
        None => return None,
    };
    let patch = if parts.len() >= 3 {
        match parse_i32(parts[2].as_str()) {
            Some(p) => p,
            None => 0,
        }
    } else {
        0
    };
    Some(Version { major, minor, patch })
}

/// What `parse_version` gives for a text.
pub open spec fn parsed_version(text: Seq<char>) -> Option<Version> {
    match spec_regex_find(version_pattern(), text) {
        Some(m) => version_of_match(m),
        None => None,
    }
}

/// The first version number in a text (see `version_pattern` and
/// `version_of_match`).
pub fn parse_version(text: &str) -> (r: Option<Version>)
    ensures
        r == parsed_version(text@),
{
    let pattern = "(?:26|1)\\.\\d+(?:\\.\\d+)?";
    match regex_find(pattern, text) {
        Some(m) => version_from_match(m.as_str()),
        None => None,
    }
}

/// Whether converting from `source` to `target` goes back in version:
/// `None` when either text holds no version.
pub open spec fn downgrade_of(source: Seq<char>, target: Seq<char>) -> Option<bool> {
    match (parsed_version(source), parsed_version(target)) {
        (Some(s), Some(t)) => Some(newer(s, t)),
        _ => None,
    }
}

/// Whether converting from `source` to `target` goes back in version.
pub fn is_downgrade_opt(source: &str, target: &str) -> (r: Option<bool>)
    ensures
        r == downgrade_of(source@, target@),
{
    match (parse_version(source), parse_version(target)) {
        (Some(s), Some(t)) => Some(is_newer(s, t)),
        _ => None,
    }
}

/// A version is never a downgrade from itself.
pub proof fn law_downgrade_irreflexive(text: Seq<char>)
    ensures
        downgrade_of(text, text) != Some(true),
{
}

/// If going from `a` to `b` is a downgrade, going from `b` to `a` is not.
pub proof fn law_downgrade_asymmetric(a: Seq<char>, b: Seq<char>)
    requires
        downgrade_of(a, b) == Some(true),
    ensures
        downgrade_of(b, a) == Some(false),
{
}

/// Downgrades compose: from `a` to `b` and from `b` to `c` is from `a` to `c`.
pub proof fn law_downgrade_transitive(a: Seq<char>, b: Seq<char>, c: Seq<char>)
    requires
        downgrade_of(a, b) == Some(true),
        downgrade_of(b, c) == Some(true),
    ensures
        downgrade_of(a, c) == Some(true),
{
}

} // verus!
