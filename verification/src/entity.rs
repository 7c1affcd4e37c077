//! Entities, points of interest and player data across a version change.
//!
//! On an upgrade they are copied over the converted world in place, where the
//! game upgrades them when it first loads them. On a downgrade, which the
//! older game cannot read, they are kept whole under
//! `_NWC_preserved_source/` with a note, so that nothing is silently lost.

use crate::archive::{parts, path_starts_with};
use crate::text::{chars_of, push_str, seq_lt, str_eq, str_lt, string_of};
use crate::version::{newer, parse_version, parsed_version};
use vstd::prelude::*;

verus! {

/// Whether keeping entities is treated as a downgrade: the source is newer
/// than the target, or either version cannot be read (keeping a copy aside
/// does the game no harm).
pub open spec fn preserve_downgrade_of(source: Seq<char>, target: Seq<char>) -> bool {
    match (parsed_version(source), parsed_version(target)) {
        (Some(s), Some(t)) => newer(s, t),
        _ => true,
    }
}

/// Whether a version change is handled as a downgrade (see
/// `preserve_downgrade_of`).
pub fn preserve_is_downgrade(source: &str, target: &str) -> (r: bool)
    ensures
        r == preserve_downgrade_of(source@, target@),
{
    match (parse_version(source), parse_version(target)) {
        (Some(s), Some(t)) => crate::version::is_newer(s, t),
        _ => true,
    }
}

/// The kinds of per-dimension directories that are kept.
pub open spec fn is_kind(c: Seq<char>) -> bool {
    c == "entities"@ || c == "poi"@
}

/// The dimension directories of the old layout.
pub open spec fn is_legacy_root(c: Seq<char>) -> bool {
    c == "world"@ || c == "DIM-1"@ || c == "DIM1"@
}

/// An entity or POI directory of a world, by its path below the world:
/// `dimensions/<namespace>/<dimension>/<kind>` for any namespace and
/// dimension, or `<legacy root>/<kind>`.
pub open spec fn is_entity_dir(p: Seq<Seq<char>>) -> bool {
    (p.len() == 4 && p[0] == "dimensions"@ && is_kind(p[3])) || (p.len() == 2 && is_legacy_root(p[0]) && is_kind(
        p[1],
    ))
}

/// The order of paths: component by component.
pub open spec fn path_lt(a: Seq<Seq<char>>, b: Seq<Seq<char>>) -> bool
    decreases a.len(),
{
    if b.len() == 0 {
        false
    } else if a.len() == 0 {
        true
    } else if a[0] != b[0] {
        seq_lt(a[0], b[0])
    } else {
        path_lt(a.drop_first(), b.drop_first())
    }
}

/// `x` added to a sorted list of distinct paths, in order, unless it is there.
pub open spec fn insert_path(s: Seq<Seq<Seq<char>>>, x: Seq<Seq<char>>) -> Seq<Seq<Seq<char>>>
    decreases s.len(),
{
    if s.len() == 0 {
        seq![x]
    } else if s.last() == x {
        s
    } else if path_lt(s.last(), x) {
        s.push(x)
    } else {
        insert_path(s.drop_last(), x).push(s.last())
    }
}

/// The entity directories among `dirs`, sorted and without repetition.
pub open spec fn entity_dirs_of(dirs: Seq<Seq<Seq<char>>>) -> Seq<Seq<Seq<char>>>
    decreases dirs.len(),
{
    if dirs.len() == 0 {
        Seq::empty()
    } else {
        let r = entity_dirs_of(dirs.drop_last());
        if is_entity_dir(dirs.last()) {
            insert_path(r, dirs.last())
        } else {
            r
        }
    }
}

pub open spec fn paths_of(v: Seq<Vec<String>>) -> Seq<Seq<Seq<char>>> {
    v.map_values(|p: Vec<String>| parts(p@))
}

fn path_less(a: &Vec<String>, b: &Vec<String>) -> (r: bool)
    ensures
        r == path_lt(parts(a@), parts(b@)),
{
    let ghost av = parts(a@);
    let ghost bv = parts(b@);
    let mut i: usize = 0;
    assert(av.skip(0) =~= av);
    assert(bv.skip(0) =~= bv);
    while i < a.len() && i < b.len() && str_eq(a[i].as_str(), b[i].as_str())
        invariant
            i <= a@.len(),
            i <= b@.len(),
            av == parts(a@),
            bv == parts(b@),
            path_lt(av, bv) == path_lt(av.skip(i as int), bv.skip(i as int)),
        decreases a@.len() - i,
    {
        assert(av.skip(i as int).drop_first() =~= av.skip(i + 1));
        assert(bv.skip(i as int).drop_first() =~= bv.skip(i + 1));
        i += 1;
    }
    if i == b.len() {
        return false;
    }
    if i == a.len() {
        return true;
    }
    assert(av.skip(i as int)[0] == av[i as int]);
    assert(bv.skip(i as int)[0] == bv[i as int]);
    str_lt(a[i].as_str(), b[i].as_str())
}

fn path_eq(a: &Vec<String>, b: &Vec<String>) -> (r: bool)
    ensures
        r == (parts(a@) == parts(b@)),
{
    if a.len() != b.len() {
        return false;
    }
    let same = path_starts_with(a, b);
    proof {
        if same {
            assert(parts(a@).subrange(0, parts(b@).len() as int) =~= parts(a@));
        }
        if parts(a@) == parts(b@) {
            assert(parts(a@).subrange(0, parts(b@).len() as int) =~= parts(b@));
        }
    }
    same
}

proof fn lemma_insert_path_at(s: Seq<Seq<Seq<char>>>, x: Seq<Seq<char>>, j: int)
    requires
        0 <= j <= s.len(),
        j == 0 || s[j - 1] == x || path_lt(s[j - 1], x),
        forall|k: int| j <= k < s.len() ==> #[trigger] s[k] != x && !path_lt(s[k], x),
    ensures
        insert_path(s, x) == if j > 0 && s[j - 1] == x { s } else { s.insert(j, x) },
    decreases s.len(),
{
    if s.len() == 0 {
        assert(s.insert(j, x) =~= seq![x]);
    } else if j == s.len() {
        if s[j - 1] != x {
            assert(s.insert(j, x) =~= s.push(x));
        }
    } else {
        assert(s[s.len() - 1] != x && !path_lt(s[s.len() - 1], x));
        lemma_insert_path_at(s.drop_last(), x, j);
        if j > 0 && s[j - 1] == x {
            assert(s.drop_last().push(s.last()) =~= s);
        } else {
            assert(s.drop_last().insert(j, x).push(s.last()) =~= s.insert(j, x));
        }
    }
}

fn copy_path(p: &Vec<String>) -> (r: Vec<String>)
    ensures
        parts(r@) == parts(p@),
{
    let mut out: Vec<String> = Vec::new();
    let mut i: usize = 0;
    while i < p.len()
        invariant
            i <= p@.len(),
            parts(out@) == parts(p@).take(i as int),
        decreases p@.len() - i,
    {
        let ghost before = out@;
        out.push(string_of(&chars_of(p[i].as_str())));
        assert(parts(out@) =~= parts(before).push(p@[i as int]@));
        assert(parts(p@).take(i + 1) =~= parts(p@).take(i as int).push(p@[i as int]@));
        i += 1;
    }
    assert(parts(p@).take(p@.len() as int) =~= parts(p@));
    out
}

fn entity_dir(p: &Vec<String>) -> (r: bool)
    ensures
        r == is_entity_dir(parts(p@)),
{
    if p.len() == 4 {
        let k = p[3].as_str();
        str_eq(p[0].as_str(), "dimensions") && (str_eq(k, "entities") || str_eq(k, "poi"))
    } else if p.len() == 2 {
        let r = p[0].as_str();
        let k = p[1].as_str();
        (str_eq(r, "world") || str_eq(r, "DIM-1") || str_eq(r, "DIM1")) && (str_eq(k, "entities") || str_eq(k, "poi"))
    } else {
        false
    }
}

/// Adds a path to a list kept sorted and without repetition (see
/// `insert_path`).
pub(crate) fn insert_sorted(out: &mut Vec<Vec<String>>, d: Vec<String>)
    ensures
        paths_of(final(out)@) == insert_path(paths_of(old(out)@), parts(d@)),
{
    let ghost before = paths_of(out@);
    let mut j = out.len();
    while j > 0 && !path_eq(&out[j - 1], &d) && !path_less(&out[j - 1], &d)
        invariant
            j <= out@.len(),
            paths_of(out@) == before,
            forall|k: int| j <= k < before.len() ==> #[trigger] before[k] != parts(d@) && !path_lt(before[k], parts(d@)),
        decreases j,
    {
        assert(before[j - 1] == parts(out@[j - 1]@));
        j -= 1;
    }
    proof {
        if j > 0 {
            assert(before[j - 1] == parts(out@[j - 1]@));
        }
        lemma_insert_path_at(before, parts(d@), j as int);
    }
    if j > 0 && path_eq(&out[j - 1], &d) {
    } else {
        let ghost dv = parts(d@);
        out.insert(j, d);
        assert(paths_of(out@) =~= before.insert(j as int, dv));
    }
}

/// The entity and POI directories among the directories of a world (paths
/// below the world), sorted and without repetition.
pub fn collect_entity_dirs(dirs: &Vec<Vec<String>>) -> (r: Vec<Vec<String>>)
    ensures
        paths_of(r@) == entity_dirs_of(paths_of(dirs@)),
{
    let ghost all = paths_of(dirs@);
    let mut out: Vec<Vec<String>> = Vec::new();
    let mut i: usize = 0;
    while i < dirs.len()
        invariant
            i <= dirs@.len(),
            all == paths_of(dirs@),
            paths_of(out@) == entity_dirs_of(all.take(i as int)),
        decreases dirs@.len() - i,
    {
        let d = &dirs[i];
        assert(all.take(i + 1).drop_last() =~= all.take(i as int));
        assert(all.take(i + 1).last() == parts(d@));
        if entity_dir(d) {
            insert_sorted(&mut out, copy_path(d));
        }
        i += 1;
    }
    assert(all.take(dirs@.len() as int) =~= all);
    out
}

/// The directories of player data that are kept.
pub open spec fn extra_dirs() -> Seq<Seq<char>> {
    seq!["playerdata"@, "advancements"@, "stats"@]
}

/// The directory under which a downgrade keeps its source data.
pub open spec fn preserved_root() -> Seq<char> {
    "_NWC_preserved_source"@
}

/// A step of keeping entities: remove a directory of the output (a failure
/// does not matter), or copy a tree of the input to the output.
#[derive(Debug)]
pub enum PreserveStep {
    Remove(Vec<String>),
    Copy(Vec<String>, Vec<String>),
}

/// A step as (whether it copies, input path, output path); a removal names
/// its path twice.
pub open spec fn step_view(s: PreserveStep) -> (bool, Seq<Seq<char>>, Seq<Seq<char>>) {
    match s {
        PreserveStep::Remove(p) => (false, parts(p@), parts(p@)),
        PreserveStep::Copy(a, b) => (true, parts(a@), parts(b@)),
    }
}

pub open spec fn steps_view(s: Seq<PreserveStep>) -> Seq<(bool, Seq<Seq<char>>, Seq<Seq<char>>)> {
    s.map_values(|x: PreserveStep| step_view(x))
}

/// What keeping entities does, in order, and the note to write into
/// `_NWC_preserved_source/README.txt` when a downgrade kept anything.
#[derive(Debug)]
pub struct PreservePlan {
    pub downgrade: bool,
    pub steps: Vec<PreserveStep>,
    pub readme: Option<String>,
}

/// The note left with the data kept by a downgrade.
pub open spec fn readme_text(source: Seq<char>, target: Seq<char>) -> Seq<char> {
    "这是降级转换（"@ + source + " → "@ + target
        + "）。\n本目录保存了目标版本无法表达的源实体、POI 与玩家数据，转换器不会静默丢弃它们。\n原 ZIP 始终未修改；如需完整数据请继续使用原存档。\n"@
}

/// The downgrade steps for a list of entity directories: each copied under
/// `_NWC_preserved_source`.
pub open spec fn keep_aside(ds: Seq<Seq<Seq<char>>>) -> Seq<(bool, Seq<Seq<char>>, Seq<Seq<char>>)> {
    ds.map_values(|d: Seq<Seq<char>>| (true, d, seq![preserved_root()] + d))
}

/// The upgrade steps for a list of directories: each removed from the
/// output and copied over from the input.
pub open spec fn replace_each(ds: Seq<Seq<Seq<char>>>) -> Seq<(bool, Seq<Seq<char>>, Seq<Seq<char>>)>
    decreases ds.len(),
{
    if ds.len() == 0 {
        Seq::empty()
    } else {
        replace_each(ds.drop_last()) + seq![(false, ds.last(), ds.last()), (true, ds.last(), ds.last())]
    }
}

/// The directories of the old layout that an upgrade removes from the output.
pub open spec fn legacy_removals() -> Seq<(bool, Seq<Seq<char>>, Seq<Seq<char>>)> {
    seq![
        (false, seq!["world"@, "entities"@], seq!["world"@, "entities"@]),
        (false, seq!["world"@, "poi"@], seq!["world"@, "poi"@]),
        (false, seq!["DIM-1"@, "entities"@], seq!["DIM-1"@, "entities"@]),
        (false, seq!["DIM-1"@, "poi"@], seq!["DIM-1"@, "poi"@]),
        (false, seq!["DIM1"@, "entities"@], seq!["DIM1"@, "entities"@]),
        (false, seq!["DIM1"@, "poi"@], seq!["DIM1"@, "poi"@]),
    ]
}

/// The player-data directories that the world has, in their fixed order.
pub open spec fn present_extras(dirs: Seq<Seq<Seq<char>>>) -> Seq<Seq<Seq<char>>> {
    (if dirs.contains(seq![extra_dirs()[0]]) { seq![seq![extra_dirs()[0]]] } else { Seq::empty() }) + (if dirs.contains(
        seq![extra_dirs()[1]],
    ) { seq![seq![extra_dirs()[1]]] } else { Seq::empty() }) + (if dirs.contains(seq![extra_dirs()[2]]) {
        seq![seq![extra_dirs()[2]]]
    } else {
        Seq::empty()
    })
}

/// The plan for keeping entities of a world whose directories are `dirs`
/// (paths below the world) when converting from `source` to `target`.
pub open spec fn preserve_plan_of(dirs: Seq<Seq<Seq<char>>>, source: Seq<char>, target: Seq<char>) -> (
    bool,
    Seq<(bool, Seq<Seq<char>>, Seq<Seq<char>>)>,
    Option<Seq<char>>,
) {
    let entity = entity_dirs_of(dirs);
    let extras = present_extras(dirs);
    if preserve_downgrade_of(source, target) {
        let steps = keep_aside(entity) + keep_aside(extras);
        (true, steps, if steps.len() > 0 { Some(readme_text(source, target)) } else { None })
    } else {
        (false, replace_each(entity) + legacy_removals() + replace_each(extras), None)
    }
}

fn contains_path(dirs: &Vec<Vec<String>>, name: &str) -> (r: bool)
    ensures
        r == paths_of(dirs@).contains(seq![name@]),
{
    let ghost all = paths_of(dirs@);
    let mut i: usize = 0;
    while i < dirs.len()
        invariant
            i <= dirs@.len(),
            all == paths_of(dirs@),
            forall|k: int| 0 <= k < i ==> all[k] != seq![name@],
        decreases dirs@.len() - i,
    {
        let d = &dirs[i];
        if d.len() == 1 && str_eq(d[0].as_str(), name) {
            assert(all[i as int] =~= seq![name@]);
            return true;
        }
        proof {
            if all[i as int] == seq![name@] {
                assert(all[i as int].len() == 1);
                assert(all[i as int][0] == d@[0]@);
            }
        }
        i += 1;
    }
    false
}

fn single(name: &str) -> (r: Vec<String>)
    ensures
        parts(r@) == seq![name@],
{
    let mut v: Vec<String> = Vec::new();
    v.push(name.to_owned());
    assert(parts(v@) =~= seq![name@]);
    v
}

fn under_preserved(p: &Vec<String>) -> (r: Vec<String>)
    ensures
        parts(r@) == seq![preserved_root()] + parts(p@),
{
    let mut v: Vec<String> = Vec::new();
    v.push("_NWC_preserved_source".to_owned());
    let ghost first = parts(v@);
    assert(first =~= seq![preserved_root()]);
    let mut i: usize = 0;
    while i < p.len()
        invariant
            i <= p@.len(),
            parts(v@) == seq![preserved_root()] + parts(p@).take(i as int),
        decreases p@.len() - i,
    {
        let ghost before = v@;
        v.push(string_of(&chars_of(p[i].as_str())));
        assert(parts(v@) =~= parts(before).push(p@[i as int]@));
        assert(parts(p@).take(i + 1) =~= parts(p@).take(i as int).push(p@[i as int]@));
        i += 1;
    }
    assert(parts(p@).take(p@.len() as int) =~= parts(p@));
    v
}

fn two(a: &str, b: &str) -> (r: Vec<String>)
    ensures
        parts(r@) == seq![a@, b@],
{
    let mut v: Vec<String> = Vec::new();
    v.push(a.to_owned());
    v.push(b.to_owned());
    assert(parts(v@) =~= seq![a@, b@]);
    v
}

fn push_step(steps: &mut Vec<PreserveStep>, s: PreserveStep)
    ensures
        steps_view(final(steps)@) == steps_view(old(steps)@).push(step_view(s)),
{
    let ghost before = steps_view(old(steps)@);
    let ghost v = step_view(s);
    steps.push(s);
    assert(steps_view(steps@) =~= before.push(v));
}

/// Plans how entities are kept (see `preserve_plan_of`). `dirs` are the
/// directories of the input world, as paths below it.
pub fn plan_preservation(dirs: &Vec<Vec<String>>, source: &str, target: &str) -> (r: PreservePlan)
    ensures
        (r.downgrade, steps_view(r.steps@), match r.readme {
            Some(t) => Some(t@),
            None => None,
        }) == preserve_plan_of(paths_of(dirs@), source@, target@),
{
    let downgrade = preserve_is_downgrade(source, target);
    let entity = collect_entity_dirs(dirs);
    let ghost ev = paths_of(entity@);
    let mut extras: Vec<Vec<String>> = Vec::new();
    proof {
        reveal_strlit("playerdata");
        reveal_strlit("advancements");
        reveal_strlit("stats");
    }
    if contains_path(dirs, "playerdata") {
        extras.push(single("playerdata"));
    }
    let ghost x1 = paths_of(extras@);
    if contains_path(dirs, "advancements") {
        extras.push(single("advancements"));
        assert(paths_of(extras@) =~= x1.push(seq!["advancements"@]));
    }
    let ghost x2 = paths_of(extras@);
    if contains_path(dirs, "stats") {
        extras.push(single("stats"));
        assert(paths_of(extras@) =~= x2.push(seq!["stats"@]));
    }
    assert(paths_of(extras@) =~= present_extras(paths_of(dirs@)));
    let mut steps: Vec<PreserveStep> = Vec::new();
    if downgrade {
        let mut i: usize = 0;
        while i < entity.len()
            invariant
                i <= entity@.len(),
                ev == paths_of(entity@),
                steps_view(steps@) == keep_aside(ev.take(i as int)),
            decreases entity@.len() - i,
        {
            push_step(&mut steps, PreserveStep::Copy(copy_path(&entity[i]), under_preserved(&entity[i])));
            assert(keep_aside(ev.take(i + 1)) =~= keep_aside(ev.take(i as int)).push(
                (true, ev[i as int], seq![preserved_root()] + ev[i as int]),
            ));
            i += 1;
        }
        assert(ev.take(entity@.len() as int) =~= ev);
        let ghost after_entities = steps_view(steps@);
        let ghost xv = paths_of(extras@);
        let mut k: usize = 0;
        while k < extras.len()
            invariant
                k <= extras@.len(),
                xv == paths_of(extras@),
                steps_view(steps@) == after_entities + keep_aside(xv.take(k as int)),
            decreases extras@.len() - k,
        {
            push_step(&mut steps, PreserveStep::Copy(copy_path(&extras[k]), under_preserved(&extras[k])));
            assert(keep_aside(xv.take(k + 1)) =~= keep_aside(xv.take(k as int)).push(
                (true, xv[k as int], seq![preserved_root()] + xv[k as int]),
            ));
            k += 1;
        }
        assert(xv.take(extras@.len() as int) =~= xv);
        let readme = if steps.len() > 0 {
            let mut t = "这是降级转换（".to_owned();
            push_str(&mut t, source);
            push_str(&mut t, " → ");
            push_str(&mut t, target);
            push_str(
                &mut t,
                "）。\n本目录保存了目标版本无法表达的源实体、POI 与玩家数据，转换器不会静默丢弃它们。\n原 ZIP 始终未修改；如需完整数据请继续使用原存档。\n",
            );
            Some(t)
        } else {
            None
        };
        PreservePlan { downgrade: true, steps, readme }
    } else {
        let mut i: usize = 0;
        while i < entity.len()
            invariant
                i <= entity@.len(),
                ev == paths_of(entity@),
                steps_view(steps@) == replace_each(ev.take(i as int)),
            decreases entity@.len() - i,
        {
            push_step(&mut steps, PreserveStep::Remove(copy_path(&entity[i])));
            push_step(&mut steps, PreserveStep::Copy(copy_path(&entity[i]), copy_path(&entity[i])));
            assert(ev.take(i + 1).drop_last() =~= ev.take(i as int));
            i += 1;
        }
        assert(ev.take(entity@.len() as int) =~= ev);
        let ghost before_legacy = steps_view(steps@);
        push_step(&mut steps, PreserveStep::Remove(two("world", "entities")));
        push_step(&mut steps, PreserveStep::Remove(two("world", "poi")));
        push_step(&mut steps, PreserveStep::Remove(two("DIM-1", "entities")));
        push_step(&mut steps, PreserveStep::Remove(two("DIM-1", "poi")));
        push_step(&mut steps, PreserveStep::Remove(two("DIM1", "entities")));
        push_step(&mut steps, PreserveStep::Remove(two("DIM1", "poi")));
        assert(steps_view(steps@) =~= before_legacy + legacy_removals());
        let ghost after_legacy = steps_view(steps@);
        let ghost xv = paths_of(extras@);
        let mut k: usize = 0;
        while k < extras.len()
            invariant
                k <= extras@.len(),
                xv == paths_of(extras@),
                steps_view(steps@) == after_legacy + replace_each(xv.take(k as int)),
            decreases extras@.len() - k,
        {
            push_step(&mut steps, PreserveStep::Remove(copy_path(&extras[k])));
            push_step(&mut steps, PreserveStep::Copy(copy_path(&extras[k]), copy_path(&extras[k])));
            assert(xv.take(k + 1).drop_last() =~= xv.take(k as int));
            k += 1;
        }
        assert(xv.take(extras@.len() as int) =~= xv);
        PreservePlan { downgrade: false, steps, readme: None }
    }
}


// ----- laws -----

proof fn lemma_insert_path_keeps(s: Seq<Seq<Seq<char>>>, x: Seq<Seq<char>>)
    ensures
        insert_path(s, x).contains(x),
        forall|k: int| 0 <= k < s.len() ==> insert_path(s, x).contains(#[trigger] s[k]),
    decreases s.len(),
{
    let r = insert_path(s, x);
    if s.len() == 0 {
        assert(r[0] == x);
    } else if s.last() == x {
        assert(r[s.len() - 1] == x);
        assert forall|k: int| 0 <= k < s.len() implies r.contains(#[trigger] s[k]) by {
            assert(r[k] == s[k]);
        }
    } else if path_lt(s.last(), x) {
        assert(r[s.len() as int] == x);
        assert forall|k: int| 0 <= k < s.len() implies r.contains(#[trigger] s[k]) by {
            assert(r[k] == s[k]);
        }
    } else {
        let t = s.drop_last();
        lemma_insert_path_keeps(t, x);
        let q = insert_path(t, x);
        let w = choose|w: int| 0 <= w < q.len() && q[w] == x;
        assert(r[w] == x);
        assert forall|k: int| 0 <= k < s.len() implies r.contains(#[trigger] s[k]) by {
            if k == s.len() - 1 {
                assert(r[r.len() - 1] == s[k]);
            } else {
                assert(t[k] == s[k]);
                assert(q.contains(t[k]));
                let v = choose|v: int| 0 <= v < q.len() && q[v] == s[k];
                assert(r[v] == s[k]);
            }
        }
    }
}

proof fn lemma_entity_dirs_complete(dirs: Seq<Seq<Seq<char>>>)
    ensures
        forall|k: int| 0 <= k < dirs.len() && is_entity_dir(dirs[k]) ==> entity_dirs_of(dirs).contains(#[trigger] dirs[k]),
    decreases dirs.len(),
{
    if dirs.len() > 0 {
        let t = dirs.drop_last();
        lemma_entity_dirs_complete(t);
        let r = entity_dirs_of(t);
        if is_entity_dir(dirs.last()) {
            lemma_insert_path_keeps(r, dirs.last());
        }
        assert forall|k: int| 0 <= k < dirs.len() && is_entity_dir(dirs[k]) implies entity_dirs_of(dirs).contains(
            #[trigger] dirs[k],
        ) by {
            if k < dirs.len() - 1 {
                assert(t[k] == dirs[k]);
                assert(r.contains(t[k]));
                if is_entity_dir(dirs.last()) {
                    let w = choose|w: int| 0 <= w < r.len() && r[w] == dirs[k];
                    assert(insert_path(r, dirs.last()).contains(r[w]));
                }
            }
        }
    }
}

/// A downgrade discards nothing: every entity or POI directory of the
/// world is copied under `_NWC_preserved_source` at its own path, every
/// copy goes there, and the note is written.
pub proof fn law_downgrade_keeps_everything(dirs: Seq<Seq<Seq<char>>>, source: Seq<char>, target: Seq<char>)
    requires
        preserve_downgrade_of(source, target),
    ensures
        ({
            let plan = preserve_plan_of(dirs, source, target);
            &&& plan.0
            &&& forall|k: int|
                0 <= k < dirs.len() && is_entity_dir(dirs[k]) ==> plan.1.contains(
                    (true, #[trigger] dirs[k], seq![preserved_root()] + dirs[k]),
                )
            &&& forall|i: int| 0 <= i < plan.1.len() ==> (#[trigger] plan.1[i]).0 && plan.1[i].2 == seq![preserved_root()]
                + plan.1[i].1
            &&& plan.1.len() > 0 ==> plan.2 == Some(readme_text(source, target))
        }),
{
    let plan = preserve_plan_of(dirs, source, target);
    let ev = entity_dirs_of(dirs);
    let xv = present_extras(dirs);
    lemma_entity_dirs_complete(dirs);
    assert forall|k: int| 0 <= k < dirs.len() && is_entity_dir(dirs[k]) implies plan.1.contains(
        (true, #[trigger] dirs[k], seq![preserved_root()] + dirs[k]),
    ) by {
        let w = choose|w: int| 0 <= w < ev.len() && ev[w] == dirs[k];
        assert(plan.1[w] == keep_aside(ev)[w]);
    }
    assert forall|i: int| 0 <= i < plan.1.len() implies (#[trigger] plan.1[i]).0 && plan.1[i].2 == seq![preserved_root()]
        + plan.1[i].1 by {
        if i < ev.len() {
            assert(plan.1[i] == keep_aside(ev)[i]);
        } else {
            assert(plan.1[i] == keep_aside(xv)[i - ev.len()]);
        }
    }
}


/// A directory of the old layout: `world`, `DIM-1` or `DIM1`, then
/// `entities` or `poi`.
pub open spec fn is_legacy_layout(p: Seq<Seq<char>>) -> bool {
    p.len() == 2 && is_legacy_root(p[0]) && is_kind(p[1])
}

proof fn lemma_replace_each_at(ds: Seq<Seq<Seq<char>>>)
    ensures
        replace_each(ds).len() == 2 * ds.len(),
        forall|k: int|
            #![trigger ds[k]]
            0 <= k < ds.len() ==> replace_each(ds)[2 * k] == (false, ds[k], ds[k]) && replace_each(ds)[2 * k + 1] == (
                true,
                ds[k],
                ds[k],
            ),
    decreases ds.len(),
{
    if ds.len() > 0 {
        let dl = ds.drop_last();
        lemma_replace_each_at(dl);
        let r = replace_each(ds);
        assert forall|k: int|
            #![trigger ds[k]]
            0 <= k < ds.len() implies r[2 * k] == (false, ds[k], ds[k]) && r[2 * k + 1] == (true, ds[k], ds[k]) by {
            if k < dl.len() {
                assert(dl[k] == ds[k]);
            }
        }
    }
}

proof fn lemma_extra_present(dirs: Seq<Seq<Seq<char>>>, m: int)
    requires
        0 <= m < 3,
        dirs.contains(seq![extra_dirs()[m]]),
    ensures
        present_extras(dirs).contains(seq![extra_dirs()[m]]),
{
    let e = extra_dirs();
    let a = if dirs.contains(seq![e[0]]) { seq![seq![e[0]]] } else { Seq::<Seq<Seq<char>>>::empty() };
    let b = if dirs.contains(seq![e[1]]) { seq![seq![e[1]]] } else { Seq::<Seq<Seq<char>>>::empty() };
    let c = if dirs.contains(seq![e[2]]) { seq![seq![e[2]]] } else { Seq::<Seq<Seq<char>>>::empty() };
    let x = present_extras(dirs);
    assert(x == a + b + c);
    if m == 0 {
        assert(x[0] == seq![e[0]]);
    } else if m == 1 {
        assert(x[a.len() as int] == seq![e[1]]);
    } else {
        assert(x[(a.len() + b.len()) as int] == seq![e[2]]);
    }
}

/// An upgrade puts the input's own directories back: no note is written and
/// nothing is set aside; every step reads and writes the same path; every
/// entity or POI directory and every player-data directory (`playerdata`,
/// `advancements`, `stats`) of the input is copied over; and every directory
/// removed from the output, other than the old-layout ones that are cleaned
/// up, is at once copied back from the input.
pub proof fn law_upgrade_restores_everything(dirs: Seq<Seq<Seq<char>>>, source: Seq<char>, target: Seq<char>)
    requires
        !preserve_downgrade_of(source, target),
    ensures
        ({
            let plan = preserve_plan_of(dirs, source, target);
            &&& !plan.0
            &&& plan.2 is None
            &&& forall|i: int| 0 <= i < plan.1.len() ==> (#[trigger] plan.1[i]).1 == plan.1[i].2
            &&& forall|k: int|
                0 <= k < dirs.len() && is_entity_dir(dirs[k]) ==> plan.1.contains((true, #[trigger] dirs[k], dirs[k]))
            &&& forall|m: int|
                0 <= m < 3 && dirs.contains(seq![#[trigger] extra_dirs()[m]]) ==> plan.1.contains(
                    (true, seq![extra_dirs()[m]], seq![extra_dirs()[m]]),
                )
            &&& forall|i: int|
                0 <= i < plan.1.len() && !(#[trigger] plan.1[i]).0 && !is_legacy_layout(plan.1[i].1) ==> i + 1
                    < plan.1.len() && plan.1[i + 1] == (true, plan.1[i].1, plan.1[i].1)
        }),
{
    let plan = preserve_plan_of(dirs, source, target);
    let ev = entity_dirs_of(dirs);
    let xv = present_extras(dirs);
    let lr = legacy_removals();
    lemma_replace_each_at(ev);
    lemma_replace_each_at(xv);
    lemma_entity_dirs_complete(dirs);
    let re = replace_each(ev);
    let rx = replace_each(xv);
    let steps = plan.1;
    assert(steps == re + lr + rx);
    let off = re.len() + 6;
    assert forall|i: int| 0 <= i < steps.len() implies (#[trigger] steps[i]).1 == steps[i].2 by {
        if i < re.len() {
            let k = i / 2;
            assert(ev[k] == ev[k]);
            assert(i == 2 * k || i == 2 * k + 1);
        } else if i < off {
            assert(steps[i] == lr[i - re.len()]);
        } else {
            let k = (i - off) / 2;
            assert(xv[k] == xv[k]);
            assert(i - off == 2 * k || i - off == 2 * k + 1);
            assert(steps[i] == rx[i - off]);
        }
    }
    assert forall|k: int| 0 <= k < dirs.len() && is_entity_dir(dirs[k]) implies steps.contains(
        (true, #[trigger] dirs[k], dirs[k]),
    ) by {
        let w = choose|w: int| 0 <= w < ev.len() && ev[w] == dirs[k];
        assert(ev[w] == ev[w]);
        assert(steps[2 * w + 1] == re[2 * w + 1]);
    }
    assert forall|m: int| 0 <= m < 3 && dirs.contains(seq![#[trigger] extra_dirs()[m]]) implies steps.contains(
        (true, seq![extra_dirs()[m]], seq![extra_dirs()[m]]),
    ) by {
        lemma_extra_present(dirs, m);
        let w = choose|w: int| 0 <= w < xv.len() && xv[w] == seq![extra_dirs()[m]];
        assert(xv[w] == xv[w]);
        assert(steps[off + 2 * w + 1] == rx[2 * w + 1]);
    }
    assert forall|i: int|
        0 <= i < steps.len() && !(#[trigger] steps[i]).0 && !is_legacy_layout(steps[i].1) implies i + 1 < steps.len()
        && steps[i + 1] == (true, steps[i].1, steps[i].1) by {
        if i < re.len() {
            let k = i / 2;
            assert(ev[k] == ev[k]);
            assert(i == 2 * k);
            assert(steps[i + 1] == re[i + 1]);
        } else if i < off {
            let m = i - re.len();
            assert(steps[i] == lr[m]);
            assert(is_legacy_layout(lr[m].1));
        } else {
            let k = (i - off) / 2;
            assert(xv[k] == xv[k]);
            assert(steps[i] == rx[i - off]);
            assert(i - off == 2 * k);
            assert(steps[i + 1] == rx[i + 1 - off]);
        }
    }
}

} // verus!
