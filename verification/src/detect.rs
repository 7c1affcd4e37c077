//! Recognising the kind of world in an extracted archive: Java (level.dat
//! and region files), Bedrock (a LevelDB `db` directory), NetEase-encrypted
//! Bedrock (a header on the database files).

use crate::archive::{
    file_name, file_name_of, ignored_path, is_ignored_path, is_leveldb_file_name, is_prefix_of, parts, path_starts_with,
};
use crate::error::{fails_with, ConversionError, CODE_ERROR};
use crate::models::{LevelMetadata, WorldInfo, WorldType};
use crate::text::{
    all_digits, chars_of, dec_int, dec_string, ends_with, push_str, has_prefix, has_suffix, is_digit, spec_lowercase, spec_uppercase, starts_with,
    str_eq, string_of, to_lowercase, to_uppercase,
};
use vstd::prelude::*;

verus! {

/// The header of files encrypted with NetEase's cyclic XOR.
pub open spec fn netease_header() -> Seq<u8> {
    seq![0x80u8, 0x1Du8, 0x30u8, 0x01u8]
}

/// The header of files encrypted with the older AES-CFB8 scheme.
pub open spec fn legacy_aes_header() -> Seq<u8> {
    seq![0x90u8, 0x1Du8, 0x30u8, 0x01u8]
}

/// The NetEase XOR header bytes.
pub fn netease_header_bytes() -> (r: Vec<u8>)
    ensures
        r@ == netease_header(),
{
    let r = vec![0x80u8, 0x1Du8, 0x30u8, 0x01u8];
    assert(r@ =~= netease_header());
    r
}

/// The legacy AES-CFB8 header bytes.
pub fn legacy_aes_header_bytes() -> (r: Vec<u8>)
    ensures
        r@ == legacy_aes_header(),
{
    let r = vec![0x90u8, 0x1Du8, 0x30u8, 0x01u8];
    assert(r@ =~= legacy_aes_header());
    r
}

pub open spec fn is_db_separator(c: char) -> bool {
    c == ' ' || c == '_' || c == '-'
}

/// A database directory name: `db`, optionally followed by separators
/// (space, `_`, `-`) and then at least one digit.
pub open spec fn is_db_directory_name(name: Seq<char>) -> bool {
    name == seq!['d', 'b'] || (has_prefix(name, seq!['d', 'b']) && exists|k: int|
        #![trigger name.skip(2).skip(k)]
        0 <= k < name.len() - 2 && (forall|i: int| 0 <= i < k ==> is_db_separator(#[trigger] name[i + 2]))
            && all_digits(name.skip(2).skip(k)))
}

/// Whether a directory name is a LevelDB database directory name.
pub fn matches_db_directory(name: &str) -> (r: bool)
    ensures
        r == is_db_directory_name(name@),
{
    let v = chars_of(name);
    if v.len() < 2 || v[0] != 'd' || v[1] != 'b' {
        proof {
            if has_prefix(name@, seq!['d', 'b']) {
                assert(name@.subrange(0, 2)[0] == 'd');
                assert(name@.subrange(0, 2)[1] == 'b');
            }
        }
        return false;
    }
    assert(name@.subrange(0, 2) =~= seq!['d', 'b']);
    if v.len() == 2 {
        assert(name@ =~= seq!['d', 'b']);
        return true;
    }
    proof {
        assert(name@ != seq!['d', 'b']);
    }
    let mut k: usize = 2;
    while k < v.len() && (v[k] == ' ' || v[k] == '_' || v[k] == '-')
        invariant
            2 <= k <= v@.len(),
            v@ == name@,
            forall|i: int| 0 <= i < k - 2 ==> is_db_separator(#[trigger] name@[i + 2]),
        decreases v@.len() - k,
    {
        k += 1;
    }
    if k == v.len() {
        proof {
            assert forall|j: int| 0 <= j < name@.len() - 2 && all_digits(#[trigger] name@.skip(2).skip(j)) implies
                !(forall|i: int| 0 <= i < j ==> is_db_separator(#[trigger] name@[i + 2])) by {
                assert(name@.skip(2).skip(j)[0] == name@[j + 2]);
                assert(is_digit(name@.skip(2).skip(j)[0]));
            }
        }
        return false;
    }
    let mut i = k;
    while i < v.len()
        invariant
            2 <= k <= i <= v@.len(),
            k < v@.len(),
            v@ == name@,
            !is_db_separator(name@[k as int]),
            forall|j: int| 0 <= j < k - 2 ==> is_db_separator(#[trigger] name@[j + 2]),
            forall|j: int| k <= j < i ==> is_digit(#[trigger] name@[j]),
        decreases v@.len() - i,
    {
        if !('0' <= v[i] && v[i] <= '9') {
            proof {
                assert forall|j: int|
                    0 <= j < name@.len() - 2 && all_digits(#[trigger] name@.skip(2).skip(j)) implies !(forall|
                    x: int,
                | 0 <= x < j ==> is_db_separator(#[trigger] name@[x + 2])) by {
                    if j + 2 < k {
                        assert(name@.skip(2).skip(j)[0] == name@[j + 2]);
                    } else if j + 2 > k {
                        assert(!is_db_separator(name@[(k - 2) + 2]));
                    } else {
                        assert(name@.skip(2).skip(j)[i - k] == name@[i as int]);
                    }
                }
            }
            return false;
        }
        i += 1;
    }
    proof {
        let j = k - 2;
        assert forall|x: int| 0 <= x < name@.skip(2).skip(j).len() implies is_digit(
            #[trigger] name@.skip(2).skip(j)[x],
        ) by {
            assert(name@.skip(2).skip(j)[x] == name@[x + k]);
        }
        assert(all_digits(name@.skip(2).skip(j)));
    }
    true
}


/// Whether `bytes` begin with `header`.
pub open spec fn has_header(bytes: Seq<u8>, header: Seq<u8>) -> bool {
    header.len() <= bytes.len() && bytes.subrange(0, header.len() as int) == header
}

/// Whether `bytes` begin with `header`.
pub fn header_matches(bytes: &Vec<u8>, header: &Vec<u8>) -> (r: bool)
    ensures
        r == has_header(bytes@, header@),
{
    if header.len() > bytes.len() {
        return false;
    }
    let mut i: usize = 0;
    while i < header.len()
        invariant
            header@.len() <= bytes@.len(),
            i <= header@.len(),
            forall|j: int| 0 <= j < i ==> bytes@[j] == header@[j],
        decreases header@.len() - i,
    {
        if bytes[i] != header[i] {
            assert(bytes@.subrange(0, header@.len() as int)[i as int] != header@[i as int]);
            return false;
        }
        i += 1;
    }
    assert(bytes@.subrange(0, header@.len() as int) =~= header@);
    true
}

// ----- the tree of an extracted archive -----

/// An entry of the extracted tree, as a walk of it reports it.
#[derive(Debug)]
pub struct Node {
    /// The components of its path below the extracted root; empty for the
    /// root itself.
    pub path: Vec<String>,
    pub is_dir: bool,
    pub is_file: bool,
    /// The size in bytes.
    pub size: u64,
    /// The first 4 bytes of a file (fewer when it is shorter or unreadable).
    pub head: Vec<u8>,
}

pub open spec fn npath(n: Node) -> Seq<Seq<char>> {
    parts(n.path@)
}

/// `p` lies directly in `dir`.
pub open spec fn is_child(p: Seq<Seq<char>>, dir: Seq<Seq<char>>) -> bool {
    p.len() == dir.len() + 1 && is_prefix_of(dir, p)
}

/// `p` lies in `dir`, at most `max` levels down.
pub open spec fn is_within(p: Seq<Seq<char>>, dir: Seq<Seq<char>>, max: int) -> bool {
    is_prefix_of(dir, p) && dir.len() < p.len() <= dir.len() + max
}

/// The tree holds a file at `p`.
pub open spec fn has_file(nodes: Seq<Node>, p: Seq<Seq<char>>) -> bool {
    exists|k: int| 0 <= k < nodes.len() && nodes[k].is_file && #[trigger] npath(nodes[k]) == p
}

/// The tree holds a directory at `p`.
pub open spec fn has_dir(nodes: Seq<Node>, p: Seq<Seq<char>>) -> bool {
    exists|k: int| 0 <= k < nodes.len() && nodes[k].is_dir && #[trigger] npath(nodes[k]) == p
}

/// A region file (`.mca`, in any case) lies in `dir`, at most 5 levels down.
pub open spec fn has_mca_within(nodes: Seq<Node>, dir: Seq<Seq<char>>) -> bool {
    exists|k: int|
        0 <= k < nodes.len() && nodes[k].is_file && is_within(#[trigger] npath(nodes[k]), dir, 5) && has_suffix(
            spec_lowercase(npath(nodes[k]).last()),
            ".mca"@,
        )
}

/// A LevelDB file lies directly in `dir`.
pub open spec fn has_leveldb_files(nodes: Seq<Node>, dir: Seq<Seq<char>>) -> bool {
    exists|k: int|
        0 <= k < nodes.len() && nodes[k].is_file && is_child(#[trigger] npath(nodes[k]), dir)
            && is_leveldb_file_name(spec_uppercase(npath(nodes[k]).last()))
}

/// A directory that detection looks at: at most 10 levels down, and not
/// under an ignored component.
pub open spec fn listed_dir(n: Node) -> bool {
    n.is_dir && npath(n).len() <= 10 && !ignored_path(npath(n), Seq::empty())
}

/// The listed directories at depth `d`, in walk order.
pub open spec fn dirs_at(nodes: Seq<Node>, d: int) -> Seq<Node>
    decreases nodes.len(),
{
    if nodes.len() == 0 {
        Seq::empty()
    } else {
        let rest = dirs_at(nodes.drop_last(), d);
        if listed_dir(nodes.last()) && npath(nodes.last()).len() == d {
            rest.push(nodes.last())
        } else {
            rest
        }
    }
}

/// The listed directories above depth `d`, shallowest first (a stable sort
/// by depth of the walk order).
pub open spec fn dirs_upto(nodes: Seq<Node>, d: int) -> Seq<Node>
    decreases d,
{
    if d <= 0 {
        Seq::empty()
    } else {
        dirs_upto(nodes, d - 1) + dirs_at(nodes, d - 1)
    }
}

/// A candidate world root: its path, its database directory (Bedrock), whether
/// it is a Bedrock world, and its score.
pub type CandView = (Seq<Seq<char>>, Option<Seq<Seq<char>>>, bool, int);

/// The score of a Java candidate at `p`: level.dat is worth 20, region files
/// 50, a `region` or `dimensions` directory 15, and each level of depth
/// costs 1.
pub open spec fn java_score(nodes: Seq<Node>, p: Seq<Seq<char>>) -> int {
    20 + (if has_mca_within(nodes, p) { 50int } else { 0int }) + (if has_dir(nodes, p.push("region"@)) || has_dir(
        nodes,
        p.push("dimensions"@),
    ) { 15int } else { 0int }) - p.len()
}

/// The candidates that a directory yields: a Java world when it holds
/// `level.dat`, and a Bedrock world rooted at its parent when it is a
/// database directory holding LevelDB files.
pub open spec fn dir_cands(nodes: Seq<Node>, n: Node) -> Seq<CandView> {
    let p = npath(n);
    let java: Seq<CandView> = if has_file(nodes, p.push("level.dat"@)) {
        seq![(p, None, false, java_score(nodes, p))]
    } else {
        Seq::empty()
    };
    let bedrock: Seq<CandView> = if p.len() >= 1 && is_db_directory_name(spec_lowercase(p.last()))
        && has_leveldb_files(nodes, p) {
        seq![(p.drop_last(), Some(p), true, 100 - (p.len() - 1))]
    } else {
        Seq::empty()
    };
    java + bedrock
}

/// The candidates of a list of directories, in order.
pub open spec fn cands_of(nodes: Seq<Node>, dirs: Seq<Node>) -> Seq<CandView>
    decreases dirs.len(),
{
    if dirs.len() == 0 {
        Seq::empty()
    } else {
        cands_of(nodes, dirs.drop_last()) + dir_cands(nodes, dirs.last())
    }
}

/// All candidates of the tree.
pub open spec fn candidates_of(nodes: Seq<Node>) -> Seq<CandView> {
    cands_of(nodes, dirs_upto(nodes, 11))
}

/// A file of the candidate's database directory, or a `MANIFEST-` file of its
/// root, begins with `header`.
pub open spec fn cand_has_header(nodes: Seq<Node>, c: CandView, header: Seq<u8>) -> bool {
    exists|k: int|
        0 <= k < nodes.len() && nodes[k].is_file && has_header(nodes[k].head@, header) && {
            let p = #[trigger] npath(nodes[k]);
            (c.1 matches Some(db) && is_child(p, db)) || (is_child(p, c.0) && has_prefix(p.last(), "MANIFEST-"@))
        }
}

/// A Bedrock candidate whose files carry either encryption header.
pub open spec fn is_encrypted_cand(nodes: Seq<Node>, c: CandView) -> bool {
    c.2 && (cand_has_header(nodes, c, netease_header()) || cand_has_header(nodes, c, legacy_aes_header()))
}

/// The candidate with the highest score, the last of them on a tie.
pub open spec fn best_cand(cs: Seq<CandView>) -> Option<CandView>
    decreases cs.len(),
{
    if cs.len() == 0 {
        None
    } else {
        let prev = best_cand(cs.drop_last());
        if prev is None || cs.last().3 >= prev.unwrap().3 {
            Some(cs.last())
        } else {
            prev
        }
    }
}

/// The encrypted Bedrock candidate with the highest score, the last of them
/// on a tie.
pub open spec fn best_encrypted(nodes: Seq<Node>, cs: Seq<CandView>) -> Option<CandView>
    decreases cs.len(),
{
    if cs.len() == 0 {
        None
    } else {
        let prev = best_encrypted(nodes, cs.drop_last());
        if is_encrypted_cand(nodes, cs.last()) && (prev is None || cs.last().3 >= prev.unwrap().3) {
            Some(cs.last())
        } else {
            prev
        }
    }
}

/// The selected world root: an encrypted Bedrock world wins over all others.
pub open spec fn selected_of(nodes: Seq<Node>) -> Option<CandView> {
    let cs = candidates_of(nodes);
    match best_encrypted(nodes, cs) {
        Some(c) => Some(c),
        None => best_cand(cs),
    }
}

/// A file counted as part of the world at `root`: under it, and not under
/// an ignored component below it.
pub open spec fn counted(n: Node, root: Seq<Seq<char>>) -> bool {
    n.is_file && !ignored_path(npath(n), root)
}

/// The number of files of the world at `root`, and their bytes.
pub open spec fn world_totals(nodes: Seq<Node>, root: Seq<Seq<char>>) -> (int, int)
    decreases nodes.len(),
{
    if nodes.len() == 0 {
        (0, 0)
    } else {
        let t = world_totals(nodes.drop_last(), root);
        if counted(nodes.last(), root) {
            (t.0 + 1, t.1 + nodes.last().size)
        } else {
            t
        }
    }
}

/// The bytes of all files of the tree.
pub open spec fn total_size(nodes: Seq<Node>) -> int
    decreases nodes.len(),
{
    if nodes.len() == 0 {
        0
    } else {
        total_size(nodes.drop_last()) + nodes.last().size
    }
}

/// A candidate world root.
#[derive(Debug)]
pub struct Candidate {
    /// Its path below the extracted root.
    pub root: Vec<String>,
    /// Its database directory, for a Bedrock world.
    pub database_directory: Option<Vec<String>>,
    pub bedrock: bool,
    pub score: i64,
}

pub open spec fn opt_parts(p: Option<Vec<String>>) -> Option<Seq<Seq<char>>> {
    match p {
        Some(v) => Some(parts(v@)),
        None => None,
    }
}

pub open spec fn cand_view(c: Candidate) -> CandView {
    (parts(c.root@), opt_parts(c.database_directory), c.bedrock, c.score as int)
}

/// The world that detection selected, with the number of its files and bytes.
#[derive(Debug)]
pub struct Detection {
    pub candidate: Candidate,
    pub file_count: u64,
    pub byte_count: u64,
}

fn clone_path(p: &Vec<String>) -> (r: Vec<String>)
    ensures
        parts(r@) == parts(p@),
{
    let mut out: Vec<String> = Vec::new();
    let mut i: usize = 0;
    while i < p.len()
        invariant
            i <= p@.len(),
            parts(out@) == parts(p@).take(i as int),
        decreases p@.len() - i,
    {
        let ghost before = out@;
        let c = string_of(&chars_of(p[i].as_str()));
        out.push(c);
        assert(parts(out@) =~= parts(before).push(p@[i as int]@));
        assert(parts(p@).take(i + 1) =~= parts(p@).take(i as int).push(p@[i as int]@));
        i += 1;
    }
    assert(parts(p@).take(p@.len() as int) =~= parts(p@));
    out
}

/// Whether `p` lies directly in `dir`.
fn child_of(p: &Vec<String>, dir: &Vec<String>) -> (r: bool)
    ensures
        r == is_child(parts(p@), parts(dir@)),
{
    p.len() > dir.len() && p.len() - dir.len() == 1 && path_starts_with(p, dir)
}

/// Whether `p` is `dir` followed by `name`.
fn is_entry(p: &Vec<String>, dir: &Vec<String>, name: &str) -> (r: bool)
    ensures
        r == (parts(p@) == parts(dir@).push(name@)),
{
    if !child_of(p, dir) {
        proof {
            if parts(p@) == parts(dir@).push(name@) {
                assert(parts(p@).subrange(0, parts(dir@).len() as int) =~= parts(dir@));
            }
        }
        return false;
    }
    let same = str_eq(p[p.len() - 1].as_str(), name);
    proof {
        if same {
            assert(parts(p@) =~= parts(dir@).push(name@)) by {
                assert(parts(p@).subrange(0, parts(dir@).len() as int) == parts(dir@));
                assert forall|i: int| 0 <= i < parts(dir@).len() implies parts(p@)[i] == parts(dir@)[i] by {
                    assert(parts(p@)[i] == parts(p@).subrange(0, parts(dir@).len() as int)[i]);
                }
            }
        } else {
            assert(parts(p@).last() != name@);
        }
    }
    same
}

/// Whether the tree holds a file (or, with `want_dir`, a directory) named
/// `name` directly in `dir`.
fn has_entry(nodes: &Vec<Node>, dir: &Vec<String>, name: &str, want_dir: bool) -> (r: bool)
    ensures
        !want_dir ==> r == has_file(nodes@, parts(dir@).push(name@)),
        want_dir ==> r == has_dir(nodes@, parts(dir@).push(name@)),
{
    let mut k: usize = 0;
    while k < nodes.len()
        invariant
            k <= nodes@.len(),
            forall|j: int|
                0 <= j < k ==> !(if want_dir { nodes@[j].is_dir } else { nodes@[j].is_file }) || #[trigger] npath(
                    nodes@[j],
                ) != parts(dir@).push(name@),
        decreases nodes@.len() - k,
    {
        let n = &nodes[k];
        let kind = if want_dir { n.is_dir } else { n.is_file };
        if kind && is_entry(&n.path, dir, name) {
            assert(npath(nodes@[k as int]) == parts(dir@).push(name@));
            return true;
        }
        k += 1;
    }
    false
}

/// Whether `p` lies in `dir`, at most `max` levels down.
fn within(p: &Vec<String>, dir: &Vec<String>, max: usize) -> (r: bool)
    requires
        max <= 10,
    ensures
        r == is_within(parts(p@), parts(dir@), max as int),
{
    p.len() > dir.len() && p.len() - dir.len() <= max && path_starts_with(p, dir)
}

fn has_mca(nodes: &Vec<Node>, dir: &Vec<String>) -> (r: bool)
    ensures
        r == has_mca_within(nodes@, parts(dir@)),
{
    let mut k: usize = 0;
    while k < nodes.len()
        invariant
            k <= nodes@.len(),
            forall|j: int|
                0 <= j < k ==> !(nodes@[j].is_file && is_within(#[trigger] npath(nodes@[j]), parts(dir@), 5)
                    && has_suffix(spec_lowercase(npath(nodes@[j]).last()), ".mca"@)),
        decreases nodes@.len() - k,
    {
        let n = &nodes[k];
        if n.is_file && within(&n.path, dir, 5) {
            let lower = to_lowercase(n.path[n.path.len() - 1].as_str());
            if ends_with(lower.as_str(), ".mca") {
                assert(npath(nodes@[k as int]).last() == n.path@[n.path@.len() - 1]@);
                return true;
            }
        }
        k += 1;
    }
    false
}

fn has_leveldb(nodes: &Vec<Node>, dir: &Vec<String>) -> (r: bool)
    ensures
        r == has_leveldb_files(nodes@, parts(dir@)),
{
    let mut k: usize = 0;
    while k < nodes.len()
        invariant
            k <= nodes@.len(),
            forall|j: int|
                0 <= j < k ==> !(nodes@[j].is_file && is_child(#[trigger] npath(nodes@[j]), parts(dir@))
                    && is_leveldb_file_name(spec_uppercase(npath(nodes@[j]).last()))),
        decreases nodes@.len() - k,
    {
        let n = &nodes[k];
        if n.is_file && child_of(&n.path, dir) {
            let upper = to_uppercase(n.path[n.path.len() - 1].as_str());
            let u = upper.as_str();
            assert(npath(nodes@[k as int]).last() == n.path@[n.path@.len() - 1]@);
            if ends_with(u, ".LDB") || ends_with(u, ".LOG") || starts_with(u, "MANIFEST-") || str_eq(u, "CURRENT") {
                return true;
            }
        }
        k += 1;
    }
    false
}

/// Whether a path has an ignored component.
fn listed(n: &Node) -> (r: bool)
    ensures
        r == listed_dir(*n),
{
    let empty: Vec<String> = Vec::new();
    assert(parts(empty@) =~= Seq::<Seq<char>>::empty());
    n.is_dir && n.path.len() <= 10 && !is_ignored_path(&n.path, &empty)
}

/// The candidates that the directory `n` yields (see `dir_cands`).
fn candidates_in(nodes: &Vec<Node>, n: &Node, out: &mut Vec<Candidate>)
    requires
        npath(*n).len() <= 10,
    ensures
        final(out)@.map_values(|c: Candidate| cand_view(c)) == old(out)@.map_values(|c: Candidate| cand_view(c))
            + dir_cands(nodes@, *n),
{
    let ghost before = old(out)@.map_values(|c: Candidate| cand_view(c));
    let ghost p = npath(*n);
    let ghost java_part: Seq<CandView> = if has_file(nodes@, p.push("level.dat"@)) {
        seq![(p, None, false, java_score(nodes@, p))]
    } else {
        Seq::empty()
    };
    if has_entry(nodes, &n.path, "level.dat", false) {
        let mut score: i64 = 20;
        if has_mca(nodes, &n.path) {
            score += 50;
        }
        if has_entry(nodes, &n.path, "region", true) || has_entry(nodes, &n.path, "dimensions", true) {
            score += 15;
        }
        score -= n.path.len() as i64;
        out.push(Candidate { root: clone_path(&n.path), database_directory: None, bedrock: false, score });
        assert(out@.map_values(|c: Candidate| cand_view(c)) =~= before + java_part);
    } else {
        assert(out@.map_values(|c: Candidate| cand_view(c)) =~= before + java_part);
    }
    let ghost mid = out@.map_values(|c: Candidate| cand_view(c));
    if n.path.len() >= 1 {
        let lower = to_lowercase(n.path[n.path.len() - 1].as_str());
        assert(p.last() == n.path@[n.path@.len() - 1]@);
        if matches_db_directory(lower.as_str()) && has_leveldb(nodes, &n.path) {
            let mut parent: Vec<String> = Vec::new();
            let mut i: usize = 0;
            while i < n.path.len() - 1
                invariant
                    i <= n.path@.len() - 1,
                    n.path@.len() >= 1,
                    parts(parent@) == p.take(i as int),
                    p == parts(n.path@),
                decreases n.path@.len() - 1 - i,
            {
                let ghost b = parent@;
                parent.push(string_of(&chars_of(n.path[i].as_str())));
                assert(parts(parent@) =~= parts(b).push(n.path@[i as int]@));
                assert(p.take(i + 1) =~= p.take(i as int).push(p[i as int]));
                i += 1;
            }
            assert(parts(parent@) =~= p.drop_last());
            let score: i64 = 100 - (n.path.len() as i64 - 1);
            out.push(Candidate { root: parent, database_directory: Some(clone_path(&n.path)), bedrock: true, score });
            assert(out@.map_values(|c: Candidate| cand_view(c)) =~= mid.push(
                (p.drop_last(), Some(p), true, 100 - (p.len() - 1)),
            ));
        }
    }
    assert(out@.map_values(|c: Candidate| cand_view(c)) =~= before + dir_cands(nodes@, *n));
}

/// All candidates of the tree, shallowest directories first (see
/// `candidates_of`).
pub fn find_candidates(nodes: &Vec<Node>) -> (r: Vec<Candidate>)
    ensures
        r@.map_values(|c: Candidate| cand_view(c)) == candidates_of(nodes@),
{
    let mut out: Vec<Candidate> = Vec::new();
    let mut d: usize = 0;
    assert(out@.map_values(|c: Candidate| cand_view(c)) =~= cands_of(nodes@, dirs_upto(nodes@, 0)));
    while d <= 10
        invariant
            d <= 11,
            out@.map_values(|c: Candidate| cand_view(c)) == cands_of(nodes@, dirs_upto(nodes@, d as int)),
        decreases 11 - d,
    {
        let mut k: usize = 0;
        assert(nodes@.take(0) =~= Seq::<Node>::empty());
        assert(dirs_upto(nodes@, d as int) + dirs_at(nodes@.take(0), d as int) =~= dirs_upto(nodes@, d as int));
        while k < nodes.len()
            invariant
                k <= nodes@.len(),
                d <= 10,
                out@.map_values(|c: Candidate| cand_view(c)) == cands_of(
                    nodes@,
                    dirs_upto(nodes@, d as int) + dirs_at(nodes@.take(k as int), d as int),
                ),
            decreases nodes@.len() - k,
        {
            let n = &nodes[k];
            let ghost prefix = dirs_upto(nodes@, d as int) + dirs_at(nodes@.take(k as int), d as int);
            assert(nodes@.take(k + 1).drop_last() =~= nodes@.take(k as int));
            assert(nodes@.take(k + 1).last() == nodes@[k as int]);
            if listed(n) && n.path.len() == d {
                candidates_in(nodes, n, &mut out);
                assert(prefix.push(*n).drop_last() =~= prefix);
                assert(dirs_upto(nodes@, d as int) + dirs_at(nodes@.take(k + 1), d as int) =~= prefix.push(*n));
            } else {
                assert(dirs_upto(nodes@, d as int) + dirs_at(nodes@.take(k + 1), d as int) =~= prefix);
            }
            k += 1;
        }
        assert(nodes@.take(nodes@.len() as int) =~= nodes@);
        d += 1;
    }
    out
}


/// Whether the candidate's database or root files carry `header`.
fn cand_header(nodes: &Vec<Node>, c: &Candidate, header: &Vec<u8>) -> (r: bool)
    ensures
        r == cand_has_header(nodes@, cand_view(*c), header@),
{
    let ghost cv = cand_view(*c);
    let mut k: usize = 0;
    while k < nodes.len()
        invariant
            k <= nodes@.len(),
            cv == cand_view(*c),
            forall|j: int|
                0 <= j < k ==> !(nodes@[j].is_file && has_header(nodes@[j].head@, header@) && {
                    let p = #[trigger] npath(nodes@[j]);
                    (cv.1 matches Some(db) && is_child(p, db)) || (is_child(p, cv.0) && has_prefix(
                        p.last(),
                        "MANIFEST-"@,
                    ))
                }),
        decreases nodes@.len() - k,
    {
        let n = &nodes[k];
        if n.is_file && header_matches(&n.head, header) {
            let in_db = match &c.database_directory {
                Some(db) => child_of(&n.path, db),
                None => false,
            };
            let manifest_in_root = child_of(&n.path, &c.root) && starts_with(
                n.path[n.path.len() - 1].as_str(),
                "MANIFEST-",
            );
            if in_db || manifest_in_root {
                assert(npath(nodes@[k as int]).last() == n.path@[n.path@.len() - 1]@);
                return true;
            }
        }
        k += 1;
    }
    false
}

/// Whether a candidate is an encrypted Bedrock world.
fn encrypted_candidate(nodes: &Vec<Node>, c: &Candidate) -> (r: bool)
    ensures
        r == is_encrypted_cand(nodes@, cand_view(*c)),
{
    c.bedrock && (cand_header(nodes, c, &netease_header_bytes()) || cand_header(nodes, c, &legacy_aes_header_bytes()))
}

proof fn lemma_total_prefix(s: Seq<Node>, k: int)
    requires
        0 <= k <= s.len(),
    ensures
        total_size(s.take(k)) <= total_size(s),
    decreases s.len() - k,
{
    if k < s.len() {
        lemma_total_prefix(s, k + 1);
        assert(s.take(k + 1).drop_last() =~= s.take(k));
    } else {
        assert(s.take(k) =~= s);
    }
}

/// The number of files of the world at `root` and their bytes (see
/// `world_totals`).
fn count_world(nodes: &Vec<Node>, root: &Vec<String>) -> (r: (u64, u64))
    requires
        total_size(nodes@) <= u64::MAX,
    ensures
        r.0 as int == world_totals(nodes@, parts(root@)).0,
        r.1 as int == world_totals(nodes@, parts(root@)).1,
{
    let mut files: u64 = 0;
    let mut bytes: u64 = 0;
    let mut k: usize = 0;
    while k < nodes.len()
        invariant
            k <= nodes@.len(),
            total_size(nodes@) <= u64::MAX,
            files <= k,
            bytes as int <= total_size(nodes@.take(k as int)),
            files as int == world_totals(nodes@.take(k as int), parts(root@)).0,
            bytes as int == world_totals(nodes@.take(k as int), parts(root@)).1,
        decreases nodes@.len() - k,
    {
        let n = &nodes[k];
        assert(nodes@.take(k + 1).drop_last() =~= nodes@.take(k as int));
        assert(nodes@.take(k + 1).last() == nodes@[k as int]);
        proof {
            lemma_total_prefix(nodes@, k + 1);
        }
        if n.is_file && !is_ignored_path(&n.path, root) {
            files += 1;
            bytes += n.size;
        }
        k += 1;
    }
    assert(nodes@.take(nodes@.len() as int) =~= nodes@);
    (files, bytes)
}

/// The message when no world root is found.
pub open spec fn no_world_message() -> Seq<char> {
    "没有找到可识别的 Minecraft 世界根目录。需要 Java level.dat/region，或基岩版 db/*.ldb。"@
}

/// Selects the world in the tree (see `selected_of`) and counts its files.
pub fn detect_world(nodes: &Vec<Node>) -> (r: Result<Detection, ConversionError>)
    requires
        total_size(nodes@) <= u64::MAX,
    ensures
        match selected_of(nodes@) {
            None => fails_with(r, no_world_message()),
            Some(c) => r matches Ok(d) && cand_view(d.candidate) == c && d.file_count == world_totals(
                nodes@,
                c.0,
            ).0 && d.byte_count == world_totals(nodes@, c.0).1,
        },
{
    let mut cands = find_candidates(nodes);
    let ghost cs = cands@.map_values(|c: Candidate| cand_view(c));
    let mut best_enc: Option<usize> = None;
    let mut best_any: Option<usize> = None;
    let mut i: usize = 0;
    while i < cands.len()
        invariant
            i <= cands@.len(),
            cs == cands@.map_values(|c: Candidate| cand_view(c)),
            match best_enc {
                Some(b) => b < i && best_encrypted(nodes@, cs.take(i as int)) == Some(cs[b as int]),
                None => best_encrypted(nodes@, cs.take(i as int)) is None,
            },
            match best_any {
                Some(b) => b < i && best_cand(cs.take(i as int)) == Some(cs[b as int]),
                None => best_cand(cs.take(i as int)) is None,
            },
        decreases cands@.len() - i,
    {
        assert(cs.take(i + 1).drop_last() =~= cs.take(i as int));
        assert(cs.take(i + 1).last() == cs[i as int]);
        let score = cands[i].score;
        let take_any = match best_any {
            None => true,
            Some(b) => score >= cands[b].score,
        };
        if take_any {
            best_any = Some(i);
        }
        if encrypted_candidate(nodes, &cands[i]) {
            let take_enc = match best_enc {
                None => true,
                Some(b) => score >= cands[b].score,
            };
            if take_enc {
                best_enc = Some(i);
            }
        }
        i += 1;
    }
    assert(cs.take(cands@.len() as int) =~= cs);
    let chosen = match best_enc {
        Some(b) => b,
        None => match best_any {
            Some(b) => b,
            None => {
                return Err(ConversionError::new(
                    CODE_ERROR,
                    "没有找到可识别的 Minecraft 世界根目录。需要 Java level.dat/region，或基岩版 db/*.ldb。".to_owned(),
                ));
            },
        },
    };
    let candidate = cands.remove(chosen);
    let (file_count, byte_count) = count_world(nodes, &candidate.root);
    Ok(Detection { candidate, file_count, byte_count })
}

/// Whether `t` occurs in `s`.
pub open spec fn contains_text(s: Seq<char>, t: Seq<char>) -> bool {
    exists|i: int| 0 <= i && i + t.len() <= s.len() && #[trigger] s.subrange(i, i + t.len()) == t
}

/// Whether `t` occurs in `s`.
pub fn contains_str(s: &str, t: &str) -> (r: bool)
    ensures
        r == contains_text(s@, t@),
{
    let a = chars_of(s);
    let b = chars_of(t);
    if b.len() > a.len() {
        return false;
    }
    let mut i: usize = 0;
    while i <= a.len() - b.len()
        invariant
            a@ == s@,
            b@ == t@,
            b@.len() <= a@.len(),
            i <= a@.len() - b@.len() + 1,
            forall|x: int| 0 <= x < i ==> #[trigger] s@.subrange(x, x + t@.len()) != t@,
        decreases a@.len() - b@.len() + 1 - i,
    {
        let mut j: usize = 0;
        while j < b.len() && a[i + j] == b[j]
            invariant
                a@ == s@,
                b@ == t@,
                i + b@.len() <= a@.len(),
                a@.len() <= usize::MAX,
                j <= b@.len(),
                forall|y: int| 0 <= y < j ==> a@[i + y] == b@[y],
            decreases b@.len() - j,
        {
            j += 1;
        }
        if j == b.len() {
            assert(s@.subrange(i as int, i + t@.len()) =~= t@);
            return true;
        }
        assert(s@.subrange(i as int, i + t@.len())[j as int] != t@[j as int]);
        i += 1;
    }
    false
}

/// A NetEase marker: the name of the world root, or of an entry at most two
/// levels below it, contains `netease` (in any case).
pub open spec fn has_netease_marker(abs_root: Seq<Seq<char>>, nodes: Seq<Node>, root: Seq<Seq<char>>) -> bool {
    contains_text(spec_lowercase(file_name_of(abs_root)), "netease"@) || exists|k: int|
        0 <= k < nodes.len() && is_within(#[trigger] npath(nodes[k]), root, 2) && contains_text(
            spec_lowercase(npath(nodes[k]).last()),
            "netease"@,
        )
}

fn netease_marker(abs_root: &Vec<String>, nodes: &Vec<Node>, root: &Vec<String>) -> (r: bool)
    ensures
        r == has_netease_marker(parts(abs_root@), nodes@, parts(root@)),
{
    let own = to_lowercase(file_name(abs_root).as_str());
    if contains_str(own.as_str(), "netease") {
        return true;
    }
    let mut k: usize = 0;
    while k < nodes.len()
        invariant
            k <= nodes@.len(),
            !contains_text(spec_lowercase(file_name_of(parts(abs_root@))), "netease"@),
            forall|j: int|
                0 <= j < k ==> !(is_within(#[trigger] npath(nodes@[j]), parts(root@), 2) && contains_text(
                    spec_lowercase(npath(nodes@[j]).last()),
                    "netease"@,
                )),
        decreases nodes@.len() - k,
    {
        let n = &nodes[k];
        if within(&n.path, root, 2) {
            let lower = to_lowercase(n.path[n.path.len() - 1].as_str());
            assert(npath(nodes@[k as int]).last() == n.path@[n.path@.len() - 1]@);
            if contains_str(lower.as_str(), "netease") {
                return true;
            }
        }
        k += 1;
    }
    false
}

/// `a` followed by `b`.
fn join_paths(a: &Vec<String>, b: &Vec<String>) -> (r: Vec<String>)
    ensures
        parts(r@) == parts(a@) + parts(b@),
{
    let mut out = clone_path(a);
    let mut i: usize = 0;
    while i < b.len()
        invariant
            i <= b@.len(),
            parts(out@) == parts(a@) + parts(b@).take(i as int),
        decreases b@.len() - i,
    {
        let ghost before = out@;
        out.push(string_of(&chars_of(b[i].as_str())));
        assert(parts(out@) =~= parts(before).push(b@[i as int]@));
        assert(parts(b@).take(i + 1) =~= parts(b@).take(i as int).push(b@[i as int]@));
        i += 1;
    }
    assert(parts(b@).take(b@.len() as int) =~= parts(b@));
    out
}

pub open spec fn texts(v: Seq<String>) -> Seq<Seq<char>> {
    v.map_values(|s: String| s@)
}

/// The version a Java world reports: its version name, or its data version.
pub open spec fn java_version_text(m: LevelMetadata) -> Seq<char> {
    if m.version_name@.len() == 0 {
        "DataVersion "@ + dec_int(m.data_version as int)
    } else {
        m.version_name@
    }
}

/// The note on a Java world.
pub open spec fn java_note(marker: bool) -> Seq<char> {
    if marker {
        "发现网易标记文件，按网易 Java/标准 Java Anvil 存档处理"@
    } else {
        "Java 存档本身没有统一的网易专用签名，按标准 Anvil 格式处理"@
    }
}

/// The description of the selected Java world. `root` is the extracted root,
/// `level` what reading its `level.dat` gave.
pub fn java_world(root: &Vec<String>, nodes: &Vec<Node>, detection: Detection, level: Result<
    LevelMetadata,
    ConversionError,
>) -> (r: Result<WorldInfo, ConversionError>)
    ensures
        ({
            let abs = parts(root@) + parts(detection.candidate.root@);
            match level {
                Err(e) => fails_with(r, "找到了 Java 目录，但 level.dat 无法解析；"@ + e.message@),
                Ok(m) => r matches Ok(w) && parts(w.root@) == abs && w.database_directory is None && w.world_type
                    == WorldType::Java && w.detected_version@ == java_version_text(m) && w.world_name@ == (if m.world_name@.len()
                    == 0 { file_name_of(abs) } else { m.world_name@ }) && w.file_count == detection.file_count
                    && w.byte_count == detection.byte_count && texts(w.notes@) == seq![
                    java_note(has_netease_marker(abs, nodes@, parts(detection.candidate.root@))),
                ],
            }
        }),
{
    let m = match level {
        Err(e) => {
            let mut msg = "找到了 Java 目录，但 level.dat 无法解析；".to_owned();
            push_str(&mut msg, e.message.as_str());
            return Err(ConversionError::new(CODE_ERROR, msg));
        },
        Ok(m) => m,
    };
    let abs = join_paths(root, &detection.candidate.root);
    let version = if m.version_name.as_str().is_empty() {
        let mut v = "DataVersion ".to_owned();
        push_str(&mut v, dec_string(m.data_version as i64).as_str());
        v
    } else {
        string_of(&chars_of(m.version_name.as_str()))
    };
    let world_name = if m.world_name.as_str().is_empty() {
        file_name(&abs)
    } else {
        string_of(&chars_of(m.world_name.as_str()))
    };
    let note = if netease_marker(&abs, nodes, &detection.candidate.root) {
        "发现网易标记文件，按网易 Java/标准 Java Anvil 存档处理".to_owned()
    } else {
        "Java 存档本身没有统一的网易专用签名，按标准 Anvil 格式处理".to_owned()
    };
    let mut notes: Vec<String> = Vec::new();
    notes.push(note);
    assert(texts(notes@) =~= seq![java_note(has_netease_marker(parts(abs@), nodes@, parts(detection.candidate.root@)))]);
    Ok(WorldInfo {
        root: abs,
        database_directory: None,
        world_type: WorldType::Java,
        detected_version: version,
        world_name,
        file_count: detection.file_count,
        byte_count: detection.byte_count,
        notes,
    })
}

/// The kind of a Bedrock world and the note on it: the legacy AES header wins
/// over the NetEase XOR header.
pub open spec fn bedrock_kind(legacy: bool, modern: bool) -> (WorldType, Seq<char>) {
    if legacy {
        (WorldType::NeteaseBedrockLegacyAes, "检测到 90 1D 30 01 旧版 AES-CFB8 加密头；该格式无法离线恢复密钥"@)
    } else if modern {
        (WorldType::NeteaseBedrock, "检测到 80 1D 30 01 网易异或加密头"@)
    } else {
        (WorldType::Bedrock, "LevelDB 未加密，将直接规范化目录"@)
    }
}

/// `level.dat` is not in the world root but in the database directory.
pub open spec fn level_in_db(nodes: Seq<Node>, c: CandView) -> bool {
    &&& !has_file(nodes, c.0.push("level.dat"@))
    &&& c.1 matches Some(db) && has_file(nodes, db.push("level.dat"@))
}

/// The description of the selected Bedrock world.
pub fn bedrock_world(root: &Vec<String>, nodes: &Vec<Node>, detection: Detection) -> (w: WorldInfo)
    ensures
        ({
            let c = cand_view(detection.candidate);
            let abs = parts(root@) + c.0;
            let kind = bedrock_kind(
                cand_has_header(nodes@, c, legacy_aes_header()),
                cand_has_header(nodes@, c, netease_header()),
            );
            &&& parts(w.root@) == abs
            &&& match c.1 {
                Some(db) => w.database_directory matches Some(d) && parts(d@) == parts(root@) + db,
                None => w.database_directory is None,
            }
            &&& w.world_type == kind.0
            &&& w.detected_version@ == "基岩 LevelDB"@
            &&& w.world_name@ == file_name_of(abs)
            &&& w.file_count == detection.file_count
            &&& w.byte_count == detection.byte_count
            &&& texts(w.notes@) == if level_in_db(nodes@, c) {
                seq![kind.1, "level.dat 位于数据库目录内，转换时会自动移回世界根目录"@]
            } else {
                seq![kind.1]
            }
        }),
{
    let c = &detection.candidate;
    let ghost cv = cand_view(*c);
    let legacy = cand_header(nodes, c, &legacy_aes_header_bytes());
    let modern = cand_header(nodes, c, &netease_header_bytes());
    let mut notes: Vec<String> = Vec::new();
    let world_type = if legacy {
        notes.push("检测到 90 1D 30 01 旧版 AES-CFB8 加密头；该格式无法离线恢复密钥".to_owned());
        WorldType::NeteaseBedrockLegacyAes
    } else if modern {
        notes.push("检测到 80 1D 30 01 网易异或加密头".to_owned());
        WorldType::NeteaseBedrock
    } else {
        notes.push("LevelDB 未加密，将直接规范化目录".to_owned());
        WorldType::Bedrock
    };
    assert(texts(notes@) =~= seq![bedrock_kind(legacy, modern).1]);
    let root_level = has_entry(nodes, &c.root, "level.dat", false);
    let nested_level = match &c.database_directory {
        Some(db) => has_entry(nodes, db, "level.dat", false),
        None => false,
    };
    if !root_level && nested_level {
        let ghost before = notes@;
        notes.push("level.dat 位于数据库目录内，转换时会自动移回世界根目录".to_owned());
        assert(texts(notes@) =~= texts(before).push("level.dat 位于数据库目录内，转换时会自动移回世界根目录"@));
    }
    let abs = join_paths(root, &c.root);
    let database_directory = match &c.database_directory {
        Some(db) => Some(join_paths(root, db)),
        None => None,
    };
    let world_name = file_name(&abs);
    WorldInfo {
        root: abs,
        database_directory,
        world_type,
        detected_version: "基岩 LevelDB".to_owned(),
        world_name,
        file_count: detection.file_count,
        byte_count: detection.byte_count,
        notes,
    }
}


// ----- laws -----

proof fn lemma_best_cand(cs: Seq<CandView>)
    ensures
        cs.len() > 0 ==> best_cand(cs) is Some,
        best_cand(cs) matches Some(c) ==> cs.contains(c) && forall|i: int| 0 <= i < cs.len() ==> (#[trigger] cs[i]).3 <= c.3,
    decreases cs.len(),
{
    if cs.len() > 0 {
        let t = cs.drop_last();
        lemma_best_cand(t);
        let c = best_cand(cs).unwrap();
        if c == cs.last() {
            assert(cs[cs.len() - 1] == c);
        } else {
            let w = choose|w: int| 0 <= w < t.len() && t[w] == c;
            assert(cs[w] == c);
        }
        assert forall|i: int| 0 <= i < cs.len() implies (#[trigger] cs[i]).3 <= c.3 by {
            if i < cs.len() - 1 {
                assert(cs[i] == t[i]);
            }
        }
    }
}

proof fn lemma_best_encrypted(nodes: Seq<Node>, cs: Seq<CandView>)
    ensures
        (exists|i: int| 0 <= i < cs.len() && is_encrypted_cand(nodes, #[trigger] cs[i])) ==> best_encrypted(nodes, cs) is Some,
        best_encrypted(nodes, cs) matches Some(c) ==> cs.contains(c) && is_encrypted_cand(nodes, c) && forall|i: int|
            0 <= i < cs.len() && is_encrypted_cand(nodes, #[trigger] cs[i]) ==> cs[i].3 <= c.3,
    decreases cs.len(),
{
    if cs.len() > 0 {
        let t = cs.drop_last();
        lemma_best_encrypted(nodes, t);
        if exists|i: int| 0 <= i < cs.len() && is_encrypted_cand(nodes, #[trigger] cs[i]) {
            let i = choose|i: int| 0 <= i < cs.len() && is_encrypted_cand(nodes, #[trigger] cs[i]);
            if i < cs.len() - 1 {
                assert(t[i] == cs[i]);
            }
        }
        match best_encrypted(nodes, cs) {
            Some(c) => {
                if c == cs.last() && is_encrypted_cand(nodes, cs.last()) && (best_encrypted(nodes, t) is None
                    || cs.last().3 >= best_encrypted(nodes, t).unwrap().3) {
                    assert(cs[cs.len() - 1] == c);
                } else {
                    assert(best_encrypted(nodes, t) == Some(c));
                    let w = choose|w: int| 0 <= w < t.len() && t[w] == c;
                    assert(cs[w] == c);
                }
                assert forall|i: int| 0 <= i < cs.len() && is_encrypted_cand(nodes, #[trigger] cs[i]) implies cs[i].3
                    <= c.3 by {
                    if i < cs.len() - 1 {
                        assert(cs[i] == t[i]);
                    }
                }
            },
            None => {},
        }
    }
}

/// Detection prefers an encrypted Bedrock world: when any candidate is
/// one, the selected world is the encrypted one with the highest score;
/// otherwise it is the candidate with the highest score. Detection fails
/// only when there is no candidate at all.
pub proof fn law_selection(nodes: Seq<Node>)
    ensures
        candidates_of(nodes).len() > 0 <==> selected_of(nodes) is Some,
        selected_of(nodes) matches Some(c) ==> candidates_of(nodes).contains(c),
        (exists|i: int| 0 <= i < candidates_of(nodes).len() && is_encrypted_cand(nodes, #[trigger] candidates_of(nodes)[i]))
            ==> (selected_of(nodes) matches Some(c) && is_encrypted_cand(nodes, c) && forall|i: int|
            0 <= i < candidates_of(nodes).len() && is_encrypted_cand(nodes, #[trigger] candidates_of(nodes)[i])
                ==> candidates_of(nodes)[i].3 <= c.3),
        !(exists|i: int| 0 <= i < candidates_of(nodes).len() && is_encrypted_cand(nodes, #[trigger] candidates_of(nodes)[i]))
            ==> (selected_of(nodes) matches Some(c) ==> forall|i: int|
            0 <= i < candidates_of(nodes).len() ==> (#[trigger] candidates_of(nodes)[i]).3 <= c.3),
{
    let cs = candidates_of(nodes);
    lemma_best_cand(cs);
    lemma_best_encrypted(nodes, cs);
    if cs.len() == 0 {
        assert(best_encrypted(nodes, cs) is None);
    }
    if !(exists|i: int| 0 <= i < cs.len() && is_encrypted_cand(nodes, #[trigger] cs[i])) {
        if best_encrypted(nodes, cs) is Some {
            let c = best_encrypted(nodes, cs).unwrap();
            let w = choose|w: int| 0 <= w < cs.len() && cs[w] == c;
            assert(is_encrypted_cand(nodes, cs[w]));
        }
    }
}

} // verus!
