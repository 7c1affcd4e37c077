//! The bookkeeping and the decisions of analysis and conversion: the table of
//! sessions, which route a conversion takes, and how results and reports are
//! named. The work itself (extracting, running backends, packing) is done by
//! the caller, step by step, as these functions direct.

use crate::archive::{file_name_of, parts, safe_folder_name, safe_folder_name_of, strip_extension, without_extension};
use crate::error::{fails_with, is_error, ConversionError, CODE_CANCELLED, CODE_ERROR};
use crate::models::{
    LogPayload, ProgressPayload, TargetVersion, ValidationResult, WorldInfo, WorldType,
};
use crate::text::{
    chars_of, dec_int, dec_string, dec_string_u64, has_prefix, has_suffix, lemma_lt_asymmetric, lemma_lt_irreflexive,
    lemma_lt_total, lemma_lt_transitive, push_str, seq_lt, spec_lowercase,
    starts_with, str_eq, str_lt, string_of, to_lowercase,
};
use crate::backends::joined_with;
use crate::detect::{contains_str, contains_text};
use crate::version::{
    chunker_format, chunker_format_of, downgrade_of, is_downgrade_opt, je2be_intermediate, je2be_intermediate_spec,
    parse_version, parsed_version, version_text,
};
use vstd::prelude::*;

verus! {

/// The most sessions kept at once; beyond it the oldest idle ones are
/// dropped.
pub const MAX_SESSIONS: usize = 3;

/// The result of a finished conversion, kept for saving.
#[derive(Debug, Clone)]
pub struct StoredResult {
    pub result_zip: Vec<String>,
    pub file_name: String,
    pub target_version: String,
    pub region_files: i64,
    pub region_chunks: i64,
    pub region_note: String,
}

/// What is known of an analysed archive between requests.
#[derive(Debug)]
pub struct SessionRecord {
    pub session_id: String,
    pub input_zip: Vec<String>,
    pub world: WorldInfo,
    pub targets: Vec<TargetVersion>,
    /// The user cancelled the session.
    pub cancelled: bool,
    /// A conversion of the session is running.
    pub converting: bool,
    pub result: Option<StoredResult>,
}

/// The sessions, each under its own identifier.
pub struct SessionTable {
    sessions: Vec<SessionRecord>,
}


/// No identifier occurs twice.
pub open spec fn distinct_ids(s: Seq<SessionRecord>) -> bool {
    forall|i: int, j: int| 0 <= i < j < s.len() ==> (#[trigger] s[i]).session_id@ != (#[trigger] s[j]).session_id@
}

/// The position of the session `id`.
pub open spec fn position_of(s: Seq<SessionRecord>, id: Seq<char>) -> Option<int> {
    if exists|i: int| 0 <= i < s.len() && (#[trigger] s[i]).session_id@ == id {
        Some(choose|i: int| 0 <= i < s.len() && (#[trigger] s[i]).session_id@ == id)
    } else {
        None
    }
}

/// The message when a session is not found.
pub open spec fn missing_session(id: Seq<char>) -> Seq<char> {
    "转换会话不存在："@ + id
}

impl View for SessionTable {
    type V = Seq<SessionRecord>;

    closed spec fn view(&self) -> Seq<SessionRecord> {
        self.sessions@
    }
}

impl SessionTable {
    /// The table is well formed: no identifier occurs twice.
    pub open spec fn wf(&self) -> bool {
        distinct_ids(self@)
    }

    /// An empty table.
    pub fn new() -> (r: SessionTable)
        ensures
            r.wf(),
            r@ == Seq::<SessionRecord>::empty(),
    {
        let r = SessionTable { sessions: Vec::new() };
        assert(r@ =~= Seq::<SessionRecord>::empty());
        r
    }

    /// The number of sessions.
    pub fn len(&self) -> (r: usize)
        ensures
            r == self@.len(),
    {
        self.sessions.len()
    }

    /// The position of the session `id`, if there is one.
    pub fn index_of(&self, id: &str) -> (r: Option<usize>)
        requires
            self.wf(),
        ensures
            match r {
                Some(i) => i < self@.len() && self@[i as int].session_id@ == id@ && position_of(self@, id@) == Some(
                    i as int,
                ),
                None => position_of(self@, id@) is None,
            },
    {
        let mut i: usize = 0;
        while i < self.sessions.len()
            invariant
                i <= self@.len(),
                self@ == self.sessions@,
                self.wf(),
                forall|k: int| 0 <= k < i ==> (#[trigger] self@[k]).session_id@ != id@,
            decreases self@.len() - i,
        {
            if str_eq(self.sessions[i].session_id.as_str(), id) {
                proof {
                    let c = choose|k: int| 0 <= k < self@.len() && (#[trigger] self@[k]).session_id@ == id@;
                    assert(c == i as int) by {
                        if c != i {
                            if c < i {
                                assert(self@[c].session_id@ != id@);
                            } else {
                                assert(self@[i as int].session_id@ != self@[c].session_id@);
                            }
                        }
                    }
                }
                return Some(i);
            }
            i += 1;
        }
        None
    }

    /// The session `id`.
    pub fn find(&self, id: &str) -> (r: Result<&SessionRecord, ConversionError>)
        requires
            self.wf(),
        ensures
            match position_of(self@, id@) {
                Some(i) => r matches Ok(rec) && *rec == self@[i],
                None => fails_with(r, missing_session(id@)),
            },
    {
        match self.index_of(id) {
            Some(i) => Ok(&self.sessions[i]),
            None => {
                let mut m = "转换会话不存在：".to_owned();
                push_str(&mut m, id);
                Err(ConversionError::new(CODE_ERROR, m))
            },
        }
    }

    /// Adds a session, replacing one with the same identifier.
    pub fn insert(&mut self, record: SessionRecord)
        requires
            old(self).wf(),
        ensures
            final(self).wf(),
            match position_of(old(self)@, record.session_id@) {
                Some(i) => final(self)@ == old(self)@.update(i, record),
                None => final(self)@ == old(self)@.push(record),
            },
    {
        let ghost id = record.session_id@;
        match self.index_of(record.session_id.as_str()) {
            Some(i) => {
                self.sessions.set(i, record);
                assert(self@ == old(self)@.update(i as int, record));
                assert(distinct_ids(self@)) by {
                    assert forall|a: int, b: int| 0 <= a < b < self@.len() implies (#[trigger] self@[a]).session_id@
                        != (#[trigger] self@[b]).session_id@ by {
                        if a != i && b != i {
                            assert(old(self)@[a] == self@[a] && old(self)@[b] == self@[b]);
                        } else if a == i {
                            assert(old(self)@[b] == self@[b]);
                            assert(old(self)@[a].session_id@ == id);
                        } else {
                            assert(old(self)@[a] == self@[a]);
                            assert(old(self)@[b].session_id@ == id);
                        }
                    }
                }
            },
            None => {
                self.sessions.push(record);
                assert(self@ == old(self)@.push(record));
                assert(distinct_ids(self@)) by {
                    assert forall|a: int, b: int| 0 <= a < b < self@.len() implies (#[trigger] self@[a]).session_id@
                        != (#[trigger] self@[b]).session_id@ by {
                        if b == self@.len() - 1 {
                            assert(old(self)@[a] == self@[a]);
                            if old(self)@[a].session_id@ == id {
                                assert(position_of(old(self)@, id) is Some);
                            }
                        } else {
                            assert(old(self)@[a] == self@[a] && old(self)@[b] == self@[b]);
                        }
                    }
                }
            },
        }
    }
}


// ----- dropping old sessions -----

/// A session as dropping goes by it: its identifier and whether it converts.
pub open spec fn entry_of(r: SessionRecord) -> (Seq<char>, bool) {
    (r.session_id@, r.converting)
}

pub open spec fn entries_of(s: Seq<SessionRecord>) -> Seq<(Seq<char>, bool)> {
    s.map_values(|r: SessionRecord| entry_of(r))
}

/// `x` inserted into a list kept in identifier order.
pub open spec fn insert_by_id(s: Seq<(Seq<char>, bool)>, x: (Seq<char>, bool)) -> Seq<(Seq<char>, bool)>
    decreases s.len(),
{
    if s.len() == 0 {
        seq![x]
    } else if !seq_lt(x.0, s.last().0) {
        s.push(x)
    } else {
        insert_by_id(s.drop_last(), x).push(s.last())
    }
}

/// The entries in identifier order (identifiers begin with a time stamp, so
/// this is the order of creation).
pub open spec fn sort_by_id(s: Seq<(Seq<char>, bool)>) -> Seq<(Seq<char>, bool)>
    decreases s.len(),
{
    if s.len() == 0 {
        Seq::empty()
    } else {
        insert_by_id(sort_by_id(s.drop_last()), s.last())
    }
}

/// The identifiers dropped: going through the sessions oldest first while
/// more than `excess` are over the limit, every one that is not converting.
pub open spec fn reaped(sorted: Seq<(Seq<char>, bool)>, excess: int) -> Seq<Seq<char>>
    decreases sorted.len(),
{
    if excess <= 0 || sorted.len() == 0 {
        Seq::empty()
    } else if sorted[0].1 {
        reaped(sorted.drop_first(), excess)
    } else {
        seq![sorted[0].0] + reaped(sorted.drop_first(), excess - 1)
    }
}

/// The sessions of `s` whose identifiers are not in `ids`, in order.
pub open spec fn kept(s: Seq<SessionRecord>, ids: Seq<Seq<char>>) -> Seq<SessionRecord>
    decreases s.len(),
{
    if s.len() == 0 {
        Seq::empty()
    } else {
        (if ids.contains(s[0].session_id@) { Seq::empty() } else { seq![s[0]] }) + kept(s.drop_first(), ids)
    }
}

/// The identifiers that dropping removes from a table.
pub open spec fn reap_ids(s: Seq<SessionRecord>) -> Seq<Seq<char>> {
    reaped(sort_by_id(entries_of(s)), s.len() - MAX_SESSIONS)
}

proof fn lemma_insert_by_id_at(s: Seq<(Seq<char>, bool)>, x: (Seq<char>, bool), j: int)
    requires
        0 <= j <= s.len(),
        j == 0 || !seq_lt(x.0, s[j - 1].0),
        forall|k: int| j <= k < s.len() ==> seq_lt(x.0, #[trigger] s[k].0),
    ensures
        insert_by_id(s, x) == s.insert(j, x),
    decreases s.len(),
{
    if s.len() == 0 {
        assert(s.insert(j, x) =~= seq![x]);
    } else if j == s.len() {
        assert(s.insert(j, x) =~= s.push(x));
    } else {
        assert(seq_lt(x.0, s[s.len() - 1].0));
        lemma_insert_by_id_at(s.drop_last(), x, j);
        assert(s.drop_last().insert(j, x).push(s.last()) =~= s.insert(j, x));
    }
}

proof fn lemma_insert_by_id_from(s: Seq<(Seq<char>, bool)>, x: (Seq<char>, bool))
    ensures
        forall|k: int| 0 <= k < insert_by_id(s, x).len() ==> #[trigger] insert_by_id(s, x)[k] == x || s.contains(
            insert_by_id(s, x)[k],
        ),
    decreases s.len(),
{
    if s.len() > 0 && seq_lt(x.0, s.last().0) {
        lemma_insert_by_id_from(s.drop_last(), x);
        let r = insert_by_id(s, x);
        assert forall|k: int| 0 <= k < r.len() implies #[trigger] r[k] == x || s.contains(r[k]) by {
            if k == r.len() - 1 {
                assert(s[s.len() - 1] == r[k]);
            } else {
                let q = insert_by_id(s.drop_last(), x);
                assert(r[k] == q[k]);
                if r[k] != x {
                    let w = choose|w: int| 0 <= w < s.drop_last().len() && s.drop_last()[w] == q[k];
                    assert(s[w] == r[k]);
                }
            }
        }
    } else if s.len() > 0 {
        let r = insert_by_id(s, x);
        assert forall|k: int| 0 <= k < r.len() implies #[trigger] r[k] == x || s.contains(r[k]) by {
            if k < s.len() {
                assert(s[k] == r[k]);
            }
        }
    }
}

proof fn lemma_sort_from(s: Seq<(Seq<char>, bool)>)
    ensures
        forall|k: int| 0 <= k < sort_by_id(s).len() ==> s.contains(#[trigger] sort_by_id(s)[k]),
    decreases s.len(),
{
    if s.len() > 0 {
        lemma_sort_from(s.drop_last());
        let p = sort_by_id(s.drop_last());
        lemma_insert_by_id_from(p, s.last());
        assert forall|k: int| 0 <= k < sort_by_id(s).len() implies s.contains(#[trigger] sort_by_id(s)[k]) by {
            let e = sort_by_id(s)[k];
            if e == s.last() {
                assert(s[s.len() - 1] == e);
            } else {
                assert(p.contains(e));
                let w = choose|w: int| 0 <= w < p.len() && p[w] == e;
                assert(s.drop_last().contains(p[w]));
                let v = choose|v: int| 0 <= v < s.drop_last().len() && s.drop_last()[v] == e;
                assert(s[v] == e);
            }
        }
    }
}

proof fn lemma_reaped_idle(sorted: Seq<(Seq<char>, bool)>, excess: int)
    ensures
        forall|k: int| 0 <= k < reaped(sorted, excess).len() ==> sorted.contains(
            (#[trigger] reaped(sorted, excess)[k], false),
        ),
        reaped(sorted, excess).len() <= if excess < 0 { 0 } else { excess },
    decreases sorted.len(),
{
    if excess > 0 && sorted.len() > 0 {
        let rest = sorted.drop_first();
        if sorted[0].1 {
            lemma_reaped_idle(rest, excess);
            assert forall|k: int| 0 <= k < reaped(sorted, excess).len() implies sorted.contains(
                (#[trigger] reaped(sorted, excess)[k], false),
            ) by {
                let e = (reaped(sorted, excess)[k], false);
                assert(rest.contains(e));
                let w = choose|w: int| 0 <= w < rest.len() && rest[w] == e;
                assert(sorted[w + 1] == e);
            }
        } else {
            lemma_reaped_idle(rest, excess - 1);
            let r = reaped(sorted, excess);
            assert forall|k: int| 0 <= k < r.len() implies sorted.contains((#[trigger] r[k], false)) by {
                if k == 0 {
                    assert(sorted[0] == (r[0], false));
                } else {
                    assert(r[k] == reaped(rest, excess - 1)[k - 1]);
                    let e = (r[k], false);
                    assert(rest.contains(e));
                    let w = choose|w: int| 0 <= w < rest.len() && rest[w] == e;
                    assert(sorted[w + 1] == e);
                }
            }
        }
    }
}

/// Dropping old sessions never drops one that is converting, and drops no
/// more than the table is over its limit.
pub proof fn law_reap_spares_converting(s: Seq<SessionRecord>, i: int)
    requires
        distinct_ids(s),
        0 <= i < s.len(),
        s[i].converting,
    ensures
        !reap_ids(s).contains(s[i].session_id@),
        reap_ids(s).len() <= if s.len() > MAX_SESSIONS { s.len() - MAX_SESSIONS } else { 0 },
{
    let es = entries_of(s);
    let sorted = sort_by_id(es);
    lemma_reaped_idle(sorted, s.len() - MAX_SESSIONS);
    lemma_sort_from(es);
    if reap_ids(s).contains(s[i].session_id@) {
        let k = choose|k: int| 0 <= k < reap_ids(s).len() && reap_ids(s)[k] == s[i].session_id@;
        let e = (reap_ids(s)[k], false);
        assert(sorted.contains(e));
        let w = choose|w: int| 0 <= w < sorted.len() && sorted[w] == e;
        assert(es.contains(sorted[w]));
        let v = choose|v: int| 0 <= v < es.len() && es[v] == e;
        assert(es[v] == entry_of(s[v]));
        assert(es[i] == entry_of(s[i]));
        if v != i {
            if v < i {
                assert(s[v].session_id@ != s[i].session_id@);
            } else {
                assert(s[i].session_id@ != s[v].session_id@);
            }
        }
    }
}

/// The sessions that are converting.
pub open spec fn converting_count(s: Seq<SessionRecord>) -> nat
    decreases s.len(),
{
    if s.len() == 0 {
        0
    } else {
        (if s[0].converting { 1nat } else { 0nat }) + converting_count(s.drop_first())
    }
}

/// The entries that are not converting.
pub open spec fn idle_count(t: Seq<(Seq<char>, bool)>) -> nat
    decreases t.len(),
{
    if t.len() == 0 {
        0
    } else {
        (if t[0].1 { 0nat } else { 1nat }) + idle_count(t.drop_first())
    }
}

/// Entries in identifier order.
pub open spec fn sorted_by_id(t: Seq<(Seq<char>, bool)>) -> bool {
    forall|i: int, j: int| 0 <= i < j < t.len() ==> !seq_lt(#[trigger] t[j].0, #[trigger] t[i].0)
}

/// No identifier occurs twice among the entries.
pub open spec fn distinct_keys(t: Seq<(Seq<char>, bool)>) -> bool {
    forall|i: int, j: int| 0 <= i < j < t.len() ==> (#[trigger] t[i]).0 != (#[trigger] t[j]).0
}

proof fn lemma_le_transitive(a: Seq<char>, b: Seq<char>, c: Seq<char>)
    ensures
        !seq_lt(b, a) && !seq_lt(c, b) ==> !seq_lt(c, a),
{
    lemma_lt_total(a, b);
    lemma_lt_transitive(c, a, b);
}

proof fn lemma_idle_push(t: Seq<(Seq<char>, bool)>, x: (Seq<char>, bool))
    ensures
        idle_count(t.push(x)) == idle_count(t) + (if x.1 { 0nat } else { 1nat }),
    decreases t.len(),
{
    let empty = Seq::<(Seq<char>, bool)>::empty();
    assert(idle_count(empty) == 0);
    if t.len() == 0 {
        assert(t.push(x).drop_first() =~= empty);
        assert(t.push(x)[0] == x);
        assert(t =~= empty);
    } else {
        assert(t.push(x).drop_first() =~= t.drop_first().push(x));
        assert(t.push(x)[0] == t[0]);
        lemma_idle_push(t.drop_first(), x);
    }
}

#[verifier::spinoff_prover]
proof fn lemma_insert_props(s: Seq<(Seq<char>, bool)>, x: (Seq<char>, bool))
    ensures
        insert_by_id(s, x).len() == s.len() + 1,
        idle_count(insert_by_id(s, x)) == idle_count(s) + (if x.1 { 0nat } else { 1nat }),
        insert_by_id(s, x).contains(x),
        forall|k: int| 0 <= k < s.len() ==> insert_by_id(s, x).contains(#[trigger] s[k]),
        sorted_by_id(s) ==> sorted_by_id(insert_by_id(s, x)),
        distinct_keys(s) && (forall|k: int| 0 <= k < s.len() ==> (#[trigger] s[k]).0 != x.0) ==> distinct_keys(
            insert_by_id(s, x),
        ),
    decreases s.len(),
{
    let r = insert_by_id(s, x);
    if s.len() == 0 {
        assert(r =~= seq![x]);
        assert(r.drop_first() =~= Seq::<(Seq<char>, bool)>::empty());
        assert(r[0] == x);
        assert(idle_count(Seq::<(Seq<char>, bool)>::empty()) == 0);
        assert(s =~= Seq::<(Seq<char>, bool)>::empty());
    } else if !seq_lt(x.0, s.last().0) {
        assert(r == s.push(x));
        lemma_idle_push(s, x);
        assert(r[s.len() as int] == x);
        assert forall|k: int| 0 <= k < s.len() implies r.contains(#[trigger] s[k]) by {
            assert(r[k] == s[k]);
        }
        if sorted_by_id(s) {
            assert forall|i: int, j: int| 0 <= i < j < r.len() implies !seq_lt(#[trigger] r[j].0, #[trigger] r[i].0) by {
                if j == s.len() {
                    let last = s[s.len() - 1];
                    if i < s.len() - 1 {
                        assert(!seq_lt(s[s.len() - 1].0, s[i].0));
                    } else {
                        lemma_lt_irreflexive(last.0);
                    }
                    lemma_le_transitive(r[i].0, last.0, x.0);
                } else {
                    assert(r[i] == s[i] && r[j] == s[j]);
                }
            }
        }
        if distinct_keys(s) && (forall|k: int| 0 <= k < s.len() ==> (#[trigger] s[k]).0 != x.0) {
            assert forall|i: int, j: int| 0 <= i < j < r.len() implies (#[trigger] r[i]).0 != (#[trigger] r[j]).0 by {
                assert(r[i] == s[i]);
                if j < s.len() {
                    assert(r[j] == s[j]);
                }
            }
        }
    } else {
        let d = s.drop_last();
        let last = s.last();
        let q = insert_by_id(d, x);
        lemma_insert_props(d, x);
        lemma_insert_by_id_from(d, x);
        assert(r == q.push(last));
        assert(s =~= d.push(last));
        lemma_idle_push(q, last);
        lemma_idle_push(d, last);
        assert(r[q.len() as int] == last);
        let qx = choose|w: int| 0 <= w < q.len() && q[w] == x;
        assert(r[qx] == x);
        assert forall|k: int| 0 <= k < s.len() implies r.contains(#[trigger] s[k]) by {
            if k == s.len() - 1 {
                assert(r[q.len() as int] == s[k]);
            } else {
                assert(d[k] == s[k]);
                assert(q.contains(d[k]));
                let w = choose|w: int| 0 <= w < q.len() && q[w] == d[k];
                assert(r[w] == s[k]);
            }
        }
        if sorted_by_id(s) {
            assert(sorted_by_id(d)) by {
                assert forall|i: int, j: int| 0 <= i < j < d.len() implies !seq_lt(#[trigger] d[j].0, #[trigger] d[i].0) by {
                    assert(d[i] == s[i] && d[j] == s[j]);
                }
            }
            assert forall|i: int, j: int| 0 <= i < j < r.len() implies !seq_lt(#[trigger] r[j].0, #[trigger] r[i].0) by {
                if j == q.len() {
                    assert(r[i] == q[i]);
                    if q[i] == x {
                        lemma_lt_asymmetric(x.0, last.0);
                    } else {
                        assert(d.contains(q[i]));
                        let w = choose|w: int| 0 <= w < d.len() && d[w] == q[i];
                        assert(s[w] == d[w]);
                        assert(!seq_lt(s[s.len() - 1].0, s[w].0));
                    }
                } else {
                    assert(r[i] == q[i] && r[j] == q[j]);
                }
            }
        }
        if distinct_keys(s) && (forall|k: int| 0 <= k < s.len() ==> (#[trigger] s[k]).0 != x.0) {
            assert(distinct_keys(d)) by {
                assert forall|i: int, j: int| 0 <= i < j < d.len() implies (#[trigger] d[i]).0 != (#[trigger] d[j]).0 by {
                    assert(d[i] == s[i] && d[j] == s[j]);
                }
            }
            assert forall|k: int| 0 <= k < d.len() implies (#[trigger] d[k]).0 != x.0 by {
                assert(d[k] == s[k]);
            }
            assert forall|i: int, j: int| 0 <= i < j < r.len() implies (#[trigger] r[i]).0 != (#[trigger] r[j]).0 by {
                assert(r[i] == q[i]);
                if j == q.len() {
                    assert(s[s.len() - 1].0 != x.0);
                    if q[i] != x {
                        assert(d.contains(q[i]));
                        let w = choose|w: int| 0 <= w < d.len() && d[w] == q[i];
                        assert(s[w] == d[w]);
                    }
                } else {
                    assert(r[j] == q[j]);
                }
            }
        }
    }
}

#[verifier::spinoff_prover]
proof fn lemma_sort_props(es: Seq<(Seq<char>, bool)>)
    ensures
        sort_by_id(es).len() == es.len(),
        sorted_by_id(sort_by_id(es)),
        idle_count(sort_by_id(es)) == idle_count(es),
        forall|k: int| 0 <= k < es.len() ==> sort_by_id(es).contains(#[trigger] es[k]),
        distinct_keys(es) ==> distinct_keys(sort_by_id(es)),
    decreases es.len(),
{
    if es.len() > 0 {
        let d = es.drop_last();
        let x = es.last();
        let p = sort_by_id(d);
        lemma_sort_props(d);
        lemma_sort_from(d);
        lemma_insert_props(p, x);
        assert(es =~= d.push(x));
        lemma_idle_push(d, x);
        let r = sort_by_id(es);
        assert forall|k: int| 0 <= k < es.len() implies r.contains(#[trigger] es[k]) by {
            if k < es.len() - 1 {
                assert(d[k] == es[k]);
                assert(p.contains(d[k]));
                let w = choose|w: int| 0 <= w < p.len() && p[w] == d[k];
                assert(r.contains(p[w]));
            }
        }
        if distinct_keys(es) {
            assert(distinct_keys(d)) by {
                assert forall|i: int, j: int| 0 <= i < j < d.len() implies (#[trigger] d[i]).0 != (#[trigger] d[j]).0 by {
                    assert(d[i] == es[i] && d[j] == es[j]);
                }
            }
            assert forall|k: int| 0 <= k < p.len() implies (#[trigger] p[k]).0 != x.0 by {
                assert(d.contains(p[k]));
                let w = choose|w: int| 0 <= w < d.len() && d[w] == p[k];
                assert(es[w] == d[w]);
                assert(es[es.len() - 1] == x);
            }
        }
    } else {
        assert(sort_by_id(es) =~= Seq::<(Seq<char>, bool)>::empty());
    }
}

proof fn lemma_reaped_len(t: Seq<(Seq<char>, bool)>, e: int)
    requires
        e >= 0,
    ensures
        reaped(t, e).len() == if e < idle_count(t) { e } else { idle_count(t) as int },
    decreases t.len(),
{
    if e > 0 && t.len() > 0 {
        if t[0].1 {
            lemma_reaped_len(t.drop_first(), e);
        } else {
            lemma_reaped_len(t.drop_first(), e - 1);
        }
    }
}

#[verifier::spinoff_prover]
proof fn lemma_reaped_order(t: Seq<(Seq<char>, bool)>, e: int)
    requires
        sorted_by_id(t),
        distinct_keys(t),
    ensures
        forall|a: int, b: int| 0 <= a < b < reaped(t, e).len() ==> reaped(t, e)[a] != reaped(t, e)[b],
        forall|r: int, j: int|
            0 <= r < reaped(t, e).len() && 0 <= j < t.len() && !t[j].1 && !reaped(t, e).contains(t[j].0) ==> seq_lt(
                #[trigger] reaped(t, e)[r],
                #[trigger] t[j].0,
            ),
    decreases t.len(),
{
    if e > 0 && t.len() > 0 {
        let rest = t.drop_first();
        assert(sorted_by_id(rest)) by {
            assert forall|i: int, j: int| 0 <= i < j < rest.len() implies !seq_lt(#[trigger] rest[j].0, #[trigger] rest[i].0) by {
                assert(rest[i] == t[i + 1] && rest[j] == t[j + 1]);
            }
        }
        assert(distinct_keys(rest)) by {
            assert forall|i: int, j: int| 0 <= i < j < rest.len() implies (#[trigger] rest[i]).0 != (#[trigger] rest[j]).0 by {
                assert(rest[i] == t[i + 1] && rest[j] == t[j + 1]);
            }
        }
        let e2 = if t[0].1 { e } else { e - 1 };
        lemma_reaped_order(rest, e2);
        lemma_reaped_idle(rest, e2);
        let q = reaped(rest, e2);
        let rr = reaped(t, e);
        if t[0].1 {
            assert(rr == q);
            assert forall|r: int, j: int|
                0 <= r < rr.len() && 0 <= j < t.len() && !t[j].1 && !rr.contains(t[j].0) implies seq_lt(
                #[trigger] rr[r],
                #[trigger] t[j].0,
            ) by {
                assert(j > 0);
                assert(rest[j - 1] == t[j]);
            }
        } else {
            assert(rr == seq![t[0].0] + q);
            assert(rr[0] == t[0].0);
            assert forall|k: int| 0 <= k < q.len() implies (#[trigger] q[k]) != t[0].0 by {
                assert(rest.contains((q[k], false)));
                let w = choose|w: int| 0 <= w < rest.len() && rest[w] == (q[k], false);
                assert(t[w + 1] == rest[w]);
            }
            assert forall|a: int, b: int| 0 <= a < b < rr.len() implies rr[a] != rr[b] by {
                if a == 0 {
                    assert(rr[b] == q[b - 1]);
                } else {
                    assert(rr[a] == q[a - 1] && rr[b] == q[b - 1]);
                }
            }
            assert forall|r: int, j: int|
                0 <= r < rr.len() && 0 <= j < t.len() && !t[j].1 && !rr.contains(t[j].0) implies seq_lt(
                #[trigger] rr[r],
                #[trigger] t[j].0,
            ) by {
                if j == 0 {
                    assert(rr[0] == t[0].0);
                } else {
                    assert(rest[j - 1] == t[j]);
                    if r == 0 {
                        assert(t[0].0 != t[j].0);
                        assert(!seq_lt(t[j].0, t[0].0));
                        lemma_lt_total(t[0].0, t[j].0);
                    } else {
                        assert(rr[r] == q[r - 1]);
                        if q.contains(t[j].0) {
                            let w = choose|w: int| 0 <= w < q.len() && q[w] == t[j].0;
                            assert(rr[w + 1] == t[j].0);
                        }
                    }
                }
            }
        }
    }
}

proof fn lemma_kept_none(s: Seq<SessionRecord>)
    ensures
        kept(s, Seq::empty()) == s,
    decreases s.len(),
{
    if s.len() > 0 {
        lemma_kept_none(s.drop_first());
        assert(seq![s[0]] + s.drop_first() =~= s);
    }
}

proof fn lemma_kept_same(s: Seq<SessionRecord>, a: Seq<Seq<char>>, b: Seq<Seq<char>>)
    requires
        forall|k: int| 0 <= k < s.len() ==> a.contains((#[trigger] s[k]).session_id@) == b.contains(s[k].session_id@),
    ensures
        kept(s, a) == kept(s, b),
    decreases s.len(),
{
    if s.len() > 0 {
        assert forall|k: int| 0 <= k < s.drop_first().len() implies a.contains((#[trigger] s.drop_first()[k]).session_id@)
            == b.contains(s.drop_first()[k].session_id@) by {
            assert(s.drop_first()[k] == s[k + 1]);
        }
        lemma_kept_same(s.drop_first(), a, b);
        assert(a.contains(s[0].session_id@) == b.contains(s[0].session_id@));
    }
}

/// The identifiers of the sessions, in order.
pub open spec fn ids_of(s: Seq<SessionRecord>) -> Seq<Seq<char>> {
    s.map_values(|r: SessionRecord| r.session_id@)
}

proof fn lemma_id_in_rest(s: Seq<SessionRecord>, x: Seq<char>)
    requires
        s.len() > 0,
        ids_of(s).contains(x),
        x != s[0].session_id@,
    ensures
        ids_of(s.drop_first()).contains(x),
{
    let w = choose|w: int| 0 <= w < ids_of(s).len() && ids_of(s)[w] == x;
    assert(w != 0);
    assert(ids_of(s.drop_first())[w - 1] == x);
}

#[verifier::spinoff_prover]
proof fn lemma_kept_len(s: Seq<SessionRecord>, ids: Seq<Seq<char>>)
    requires
        distinct_ids(s),
        forall|a: int, b: int| 0 <= a < b < ids.len() ==> ids[a] != ids[b],
        forall|k: int| 0 <= k < ids.len() ==> ids_of(s).contains(#[trigger] ids[k]),
    ensures
        kept(s, ids).len() == s.len() - ids.len(),
        forall|k: int| 0 <= k < kept(s, ids).len() ==> !ids.contains((#[trigger] kept(s, ids)[k]).session_id@),
    decreases s.len(),
{
    if s.len() == 0 {
        if ids.len() > 0 {
            assert(ids_of(s).contains(ids[0]));
        }
    } else {
        let rest = s.drop_first();
        let s0 = s[0].session_id@;
        assert(distinct_ids(rest)) by {
            assert forall|a: int, b: int| 0 <= a < b < rest.len() implies (#[trigger] rest[a]).session_id@
                != (#[trigger] rest[b]).session_id@ by {
                assert(rest[a] == s[a + 1] && rest[b] == s[b + 1]);
            }
        }
        assert forall|k: int| 0 <= k < rest.len() implies (#[trigger] rest[k]).session_id@ != s0 by {
            assert(rest[k] == s[k + 1]);
        }
        if ids.contains(s0) {
            let p = choose|p: int| 0 <= p < ids.len() && ids[p] == s0;
            let ids2 = ids.remove(p);
            assert forall|k: int| 0 <= k < rest.len() implies ids.contains((#[trigger] rest[k]).session_id@) == ids2.contains(
                rest[k].session_id@,
            ) by {
                let x = rest[k].session_id@;
                if ids.contains(x) {
                    let w = choose|w: int| 0 <= w < ids.len() && ids[w] == x;
                    assert(w != p);
                    if w < p {
                        assert(ids2[w] == x);
                    } else {
                        assert(ids2[w - 1] == x);
                    }
                }
                if ids2.contains(x) {
                    let w = choose|w: int| 0 <= w < ids2.len() && ids2[w] == x;
                    if w < p {
                        assert(ids[w] == x);
                    } else {
                        assert(ids[w + 1] == x);
                    }
                }
            }
            lemma_kept_same(rest, ids, ids2);
            assert forall|a: int, b: int| 0 <= a < b < ids2.len() implies ids2[a] != ids2[b] by {
                let a2 = if a < p { a } else { a + 1 };
                let b2 = if b < p { b } else { b + 1 };
                assert(ids2[a] == ids[a2] && ids2[b] == ids[b2]);
            }
            assert forall|k: int| 0 <= k < ids2.len() implies ids_of(rest).contains(#[trigger] ids2[k]) by {
                let k2 = if k < p { k } else { k + 1 };
                assert(ids2[k] == ids[k2]);
                assert(k2 != p);
                lemma_id_in_rest(s, ids[k2]);
            }
            lemma_kept_len(rest, ids2);
            assert(kept(s, ids) == kept(rest, ids)) by {
                assert(Seq::<SessionRecord>::empty() + kept(rest, ids) =~= kept(rest, ids));
            }
            assert forall|k: int| 0 <= k < kept(s, ids).len() implies !ids.contains((#[trigger] kept(s, ids)[k]).session_id@) by {
                let y = kept(rest, ids2)[k];
                assert(kept(s, ids)[k] == y);
                lemma_kept_distinct(rest, ids2);
                assert(rest.contains(y));
                let w = choose|w: int| 0 <= w < rest.len() && rest[w] == y;
                assert(ids.contains(rest[w].session_id@) == ids2.contains(rest[w].session_id@));
            }
        } else {
            assert forall|k: int| 0 <= k < ids.len() implies ids_of(rest).contains(#[trigger] ids[k]) by {
                lemma_id_in_rest(s, ids[k]);
            }
            lemma_kept_len(rest, ids);
            let kr = kept(rest, ids);
            assert(kept(s, ids) == seq![s[0]] + kr);
            assert forall|k: int| 0 <= k < kept(s, ids).len() implies !ids.contains((#[trigger] kept(s, ids)[k]).session_id@) by {
                if k > 0 {
                    assert(kept(s, ids)[k] == kr[k - 1]);
                }
            }
        }
    }
}

proof fn lemma_idle_entries(s: Seq<SessionRecord>)
    ensures
        idle_count(entries_of(s)) + converting_count(s) == s.len(),
    decreases s.len(),
{
    if s.len() > 0 {
        assert(entries_of(s).drop_first() =~= entries_of(s.drop_first()));
        lemma_idle_entries(s.drop_first());
    }
}

/// Dropping old sessions keeps the table within its limit as far as the
/// converting sessions allow: a table at or under the limit is left as it
/// is; otherwise `MAX_SESSIONS` sessions remain, or all the converting ones
/// when there are more of them. The sessions dropped are the oldest idle
/// ones: each dropped identifier comes before every idle one that remains.
#[verifier::spinoff_prover]
pub proof fn law_reap_keeps_limit(s: Seq<SessionRecord>)
    requires
        distinct_ids(s),
    ensures
        s.len() <= MAX_SESSIONS ==> kept(s, reap_ids(s)) == s,
        s.len() > MAX_SESSIONS ==> kept(s, reap_ids(s)).len() == if converting_count(s) > MAX_SESSIONS {
            converting_count(s) as int
        } else {
            MAX_SESSIONS as int
        },
        forall|r: int, j: int|
            0 <= r < reap_ids(s).len() && 0 <= j < kept(s, reap_ids(s)).len() && !kept(s, reap_ids(s))[j].converting
                ==> seq_lt(#[trigger] reap_ids(s)[r], (#[trigger] kept(s, reap_ids(s))[j]).session_id@),
{
    let es = entries_of(s);
    let sorted = sort_by_id(es);
    let excess = s.len() - MAX_SESSIONS;
    let ids = reap_ids(s);
    assert(distinct_keys(es)) by {
        assert forall|i: int, j: int| 0 <= i < j < es.len() implies (#[trigger] es[i]).0 != (#[trigger] es[j]).0 by {
            assert(es[i] == entry_of(s[i]) && es[j] == entry_of(s[j]));
        }
    }
    lemma_sort_props(es);
    lemma_sort_from(es);
    lemma_idle_entries(s);
    lemma_reaped_order(sorted, excess);
    lemma_reaped_idle(sorted, excess);
    if s.len() <= MAX_SESSIONS {
        assert(ids =~= Seq::<Seq<char>>::empty());
        lemma_kept_none(s);
    } else {
        lemma_reaped_len(sorted, excess);
    }
    assert forall|k: int| 0 <= k < ids.len() implies ids_of(s).contains(#[trigger] ids[k]) by {
        assert(sorted.contains((ids[k], false)));
        let w = choose|w: int| 0 <= w < sorted.len() && sorted[w] == (ids[k], false);
        assert(es.contains(sorted[w]));
        let v = choose|v: int| 0 <= v < es.len() && es[v] == sorted[w];
        assert(es[v] == entry_of(s[v]));
        assert(ids_of(s)[v] == ids[k]);
    }
    lemma_kept_len(s, ids);
    lemma_kept_distinct(s, ids);
    let kk = kept(s, ids);
    assert forall|r: int, j: int| 0 <= r < ids.len() && 0 <= j < kk.len() && !kk[j].converting implies seq_lt(
        #[trigger] ids[r],
        (#[trigger] kk[j]).session_id@,
    ) by {
        assert(s.contains(kk[j]));
        let i = choose|i: int| 0 <= i < s.len() && s[i] == kk[j];
        assert(es[i] == entry_of(s[i]));
        assert(sorted.contains(es[i]));
        let w = choose|w: int| 0 <= w < sorted.len() && sorted[w] == es[i];
        assert(!sorted[w].1 && !ids.contains(sorted[w].0));
    }
}

proof fn lemma_kept_distinct(s: Seq<SessionRecord>, ids: Seq<Seq<char>>)
    requires
        distinct_ids(s),
    ensures
        distinct_ids(kept(s, ids)),
        forall|k: int| 0 <= k < kept(s, ids).len() ==> s.contains(#[trigger] kept(s, ids)[k]),
    decreases s.len(),
{
    if s.len() > 0 {
        let rest = s.drop_first();
        assert(distinct_ids(rest)) by {
            assert forall|a: int, b: int| 0 <= a < b < rest.len() implies (#[trigger] rest[a]).session_id@
                != (#[trigger] rest[b]).session_id@ by {
                assert(rest[a] == s[a + 1] && rest[b] == s[b + 1]);
            }
        }
        lemma_kept_distinct(rest, ids);
        let kr = kept(rest, ids);
        let k = kept(s, ids);
        assert forall|x: int| 0 <= x < k.len() implies s.contains(#[trigger] k[x]) by {
            if ids.contains(s[0].session_id@) {
                assert(k[x] == kr[x]);
            } else if x == 0 {
                assert(s[0] == k[0]);
            } else {
                assert(k[x] == kr[x - 1]);
            }
            if !(!ids.contains(s[0].session_id@) && x == 0) {
                let y = if ids.contains(s[0].session_id@) { x } else { x - 1 };
                assert(rest.contains(kr[y]));
                let w = choose|w: int| 0 <= w < rest.len() && rest[w] == kr[y];
                assert(s[w + 1] == k[x]);
            }
        }
        assert forall|a: int, b: int| 0 <= a < b < k.len() implies (#[trigger] k[a]).session_id@
            != (#[trigger] k[b]).session_id@ by {
            if !ids.contains(s[0].session_id@) && a == 0 {
                assert(k[b] == kr[b - 1]);
                assert(rest.contains(kr[b - 1]));
                let w = choose|w: int| 0 <= w < rest.len() && rest[w] == kr[b - 1];
                assert(s[w + 1] == k[b]);
                assert(s[0] == k[0]);
            } else if !ids.contains(s[0].session_id@) {
                assert(k[a] == kr[a - 1] && k[b] == kr[b - 1]);
            } else {
                assert(k[a] == kr[a] && k[b] == kr[b]);
            }
        }
    }
}

fn ids_contain(ids: &Vec<String>, id: &str) -> (r: bool)
    ensures
        r == ids@.map_values(|s: String| s@).contains(id@),
{
    let ghost all = ids@.map_values(|s: String| s@);
    let mut i: usize = 0;
    while i < ids.len()
        invariant
            i <= ids@.len(),
            all == ids@.map_values(|s: String| s@),
            forall|k: int| 0 <= k < i ==> all[k] != id@,
        decreases ids@.len() - i,
    {
        if str_eq(ids[i].as_str(), id) {
            assert(all[i as int] == id@);
            return true;
        }
        i += 1;
    }
    false
}

struct Entry {
    id: String,
    converting: bool,
}

spec fn ev(e: Entry) -> (Seq<char>, bool) {
    (e.id@, e.converting)
}

impl SessionTable {
    /// Drops the oldest sessions that are not converting while there are more
    /// than `MAX_SESSIONS`; returns the identifiers dropped (see `reap_ids`).
    #[verifier::rlimit(50)]
    #[verifier::spinoff_prover]
    pub fn reap(&mut self) -> (removed: Vec<String>)
        requires
            old(self).wf(),
        ensures
            final(self).wf(),
            removed@.map_values(|s: String| s@) == reap_ids(old(self)@),
            final(self)@ == kept(old(self)@, reap_ids(old(self)@)),
    {
        let ghost start = self@;
        let ghost es = entries_of(start);
        let mut sorted: Vec<Entry> = Vec::new();
        let mut i: usize = 0;
        while i < self.sessions.len()
            invariant
                i <= start.len(),
                self@ == start,
                self@ == self.sessions@,
                es == entries_of(start),
                sorted@.map_values(|e: Entry| ev(e)) == sort_by_id(es.take(i as int)),
            decreases start.len() - i,
        {
            let r = &self.sessions[i];
            let ghost x = entry_of(*r);
            assert(es.take(i + 1).drop_last() =~= es.take(i as int));
            assert(es.take(i + 1).last() == x);
            let ghost before = sorted@.map_values(|e: Entry| ev(e));
            let mut j = sorted.len();
            while j > 0 && str_lt(r.session_id.as_str(), sorted[j - 1].id.as_str())
                invariant
                    j <= sorted@.len(),
                    sorted@.map_values(|e: Entry| ev(e)) == before,
                    x == entry_of(*r),
                    forall|k: int| j <= k < before.len() ==> seq_lt(x.0, #[trigger] before[k].0),
                decreases j,
            {
                assert(before[j - 1] == ev(sorted@[j - 1]));
                j -= 1;
            }
            proof {
                if j > 0 {
                    assert(before[j - 1] == ev(sorted@[j - 1]));
                }
                lemma_insert_by_id_at(before, x, j as int);
            }
            sorted.insert(j, Entry { id: string_of(&chars_of(r.session_id.as_str())), converting: r.converting });
            assert(sorted@.map_values(|e: Entry| ev(e)) =~= before.insert(j as int, x));
            i += 1;
        }
        assert(es.take(start.len() as int) =~= es);
        let ghost sv = sorted@.map_values(|e: Entry| ev(e));
        let mut removed: Vec<String> = Vec::new();
        if self.sessions.len() > MAX_SESSIONS {
            let mut excess: usize = self.sessions.len() - MAX_SESSIONS;
            let mut k: usize = 0;
            assert(sv.skip(0) =~= sv);
            while k < sorted.len()
                invariant
                    k <= sorted@.len(),
                    sv == sorted@.map_values(|e: Entry| ev(e)),
                    reaped(sv, start.len() - MAX_SESSIONS) == removed@.map_values(|s: String| s@) + reaped(
                        sv.skip(k as int),
                        excess as int,
                    ),
                decreases sorted@.len() - k,
            {
                let e = &sorted[k];
                let ghost rv = removed@.map_values(|s: String| s@);
                assert(sv.skip(k as int)[0] == ev(*e));
                assert(sv.skip(k as int).drop_first() =~= sv.skip(k + 1));
                if excess > 0 && !e.converting {
                    removed.push(string_of(&chars_of(e.id.as_str())));
                    assert(removed@.map_values(|s: String| s@) =~= rv.push(e.id@));
                    assert(rv.push(e.id@) + reaped(sv.skip(k + 1), excess - 1) =~= rv + (seq![e.id@] + reaped(
                        sv.skip(k + 1),
                        excess - 1,
                    )));
                    excess -= 1;
                }
                k += 1;
            }
            assert(sv.skip(sorted@.len() as int) =~= Seq::<(Seq<char>, bool)>::empty());
        }
        let ghost rids = removed@.map_values(|s: String| s@);
        assert(rids == reap_ids(start));
        let mut j = self.sessions.len();
        assert(start.skip(start.len() as int) =~= Seq::<SessionRecord>::empty());
        assert(start.take(start.len() as int) =~= start);
        while j > 0
            invariant
                j <= start.len(),
                rids == removed@.map_values(|s: String| s@),
                self.sessions@ == start.take(j as int) + kept(start.skip(j as int), rids),
            decreases j,
        {
            j -= 1;
            assert(start.skip(j as int).drop_first() =~= start.skip(j + 1));
            assert(start.skip(j as int)[0] == start[j as int]);
            assert(start.take(j + 1) =~= start.take(j as int).push(start[j as int]));
            let drop = ids_contain(&removed, self.sessions[j].session_id.as_str());
            assert(self.sessions@[j as int] == start[j as int]);
            if drop {
                let _ = self.sessions.remove(j);
                assert(self.sessions@ =~= start.take(j as int) + kept(start.skip(j as int), rids));
            } else {
                assert(start.take(j + 1) + kept(start.skip(j + 1), rids) =~= start.take(j as int) + kept(
                    start.skip(j as int),
                    rids,
                ));
            }
        }
        assert(start.take(0) + kept(start.skip(0), rids) =~= kept(start, rids)) by {
            assert(start.skip(0) =~= start);
        }
        proof {
            lemma_kept_distinct(start, rids);
        }
        removed
    }
}


// ----- converting, cancelling, asking -----

/// A record with its conversion flag set to `b`.
pub open spec fn with_converting(r: SessionRecord, b: bool) -> SessionRecord {
    SessionRecord {
        session_id: r.session_id,
        input_zip: r.input_zip,
        world: r.world,
        targets: r.targets,
        cancelled: r.cancelled,
        converting: b,
        result: r.result,
    }
}

/// What starting a conversion of session `id` answers: the code and message
/// of the refusal, or nothing when it may start.
pub open spec fn begin_refusal(s: Seq<SessionRecord>, id: Seq<char>) -> Option<(Seq<char>, Seq<char>)> {
    match position_of(s, id) {
        None => Some((CODE_ERROR@, missing_session(id))),
        Some(i) => if s[i].cancelled {
            Some((CODE_CANCELLED@, "操作已取消"@))
        } else if s[i].converting {
            Some((CODE_ERROR@, "该会话正在转换中，请等待完成或取消"@))
        } else if s[i].world.world_type == WorldType::NeteaseBedrockLegacyAes {
            Some((CODE_ERROR@, "该存档使用旧版 AES-CFB8 加密，密钥不在存档中，无法离线转换"@))
        } else {
            None
        },
    }
}

impl SessionTable {
    /// Marks session `id` as converting, unless it is missing, cancelled,
    /// already converting, or encrypted with the legacy scheme.
    pub fn begin_convert(&mut self, id: &str) -> (r: Result<(), ConversionError>)
        requires
            old(self).wf(),
        ensures
            final(self).wf(),
            match begin_refusal(old(self)@, id@) {
                Some((code, message)) => r matches Err(e) && is_error(e, code, message) && final(self)@ == old(self)@,
                None => r is Ok && final(self)@ == old(self)@.update(
                    position_of(old(self)@, id@).unwrap(),
                    with_converting(old(self)@[position_of(old(self)@, id@).unwrap()], true),
                ),
            },
    {
        let i = match self.index_of(id) {
            Some(i) => i,
            None => {
                let mut m = "转换会话不存在：".to_owned();
                push_str(&mut m, id);
                return Err(ConversionError::new(CODE_ERROR, m));
            },
        };
        if self.sessions[i].cancelled {
            return Err(ConversionError::new(CODE_CANCELLED, "操作已取消".to_owned()));
        }
        if self.sessions[i].converting {
            return Err(ConversionError::new(CODE_ERROR, "该会话正在转换中，请等待完成或取消".to_owned()));
        }
        if self.sessions[i].world.world_type == WorldType::NeteaseBedrockLegacyAes {
            return Err(
                ConversionError::new(CODE_ERROR, "该存档使用旧版 AES-CFB8 加密，密钥不在存档中，无法离线转换".to_owned()),
            );
        }
        self.set_converting(i, true);
        Ok(())
    }

    fn set_converting(&mut self, i: usize, b: bool)
        requires
            old(self).wf(),
            i < old(self)@.len(),
        ensures
            final(self).wf(),
            final(self)@ == old(self)@.update(i as int, with_converting(old(self)@[i as int], b)),
    {
        let mut r = self.sessions.remove(i);
        r.converting = b;
        self.sessions.insert(i, r);
        assert(self@ =~= old(self)@.update(i as int, with_converting(old(self)@[i as int], b)));
        assert(distinct_ids(self@)) by {
            assert forall|a: int, c: int| 0 <= a < c < self@.len() implies (#[trigger] self@[a]).session_id@
                != (#[trigger] self@[c]).session_id@ by {
                assert(self@[a].session_id == old(self)@[a].session_id);
                assert(self@[c].session_id == old(self)@[c].session_id);
            }
        }
    }

    /// Ends the conversion of session `id`, keeping its result when it
    /// succeeded.
    pub fn end_convert(&mut self, id: &str, result: Option<StoredResult>)
        requires
            old(self).wf(),
        ensures
            final(self).wf(),
            match position_of(old(self)@, id@) {
                None => final(self)@ == old(self)@,
                Some(i) => final(self)@ == old(self)@.update(
                    i,
                    SessionRecord {
                        session_id: old(self)@[i].session_id,
                        input_zip: old(self)@[i].input_zip,
                        world: old(self)@[i].world,
                        targets: old(self)@[i].targets,
                        cancelled: old(self)@[i].cancelled,
                        converting: false,
                        result: match result {
                            Some(x) => Some(x),
                            None => old(self)@[i].result,
                        },
                    },
                ),
            },
    {
        let i = match self.index_of(id) {
            Some(i) => i,
            None => {
                return;
            },
        };
        let mut r = self.sessions.remove(i);
        r.converting = false;
        match result {
            Some(x) => {
                r.result = Some(x);
            },
            None => {},
        }
        self.sessions.insert(i, r);
        assert(distinct_ids(self@)) by {
            assert forall|a: int, c: int| 0 <= a < c < self@.len() implies (#[trigger] self@[a]).session_id@
                != (#[trigger] self@[c]).session_id@ by {
                assert(self@[a].session_id == old(self)@[a].session_id);
                assert(self@[c].session_id == old(self)@[c].session_id);
            }
        }
    }

    fn set_cancelled(&mut self, i: usize)
        requires
            old(self).wf(),
            i < old(self)@.len(),
        ensures
            final(self).wf(),
            final(self)@.len() == old(self)@.len(),
            forall|k: int| 0 <= k < old(self)@.len() && k != i ==> final(self)@[k] == old(self)@[k],
            final(self)@[i as int].cancelled,
            final(self)@[i as int].session_id == old(self)@[i as int].session_id,
            final(self)@[i as int].converting == old(self)@[i as int].converting,
    {
        let mut r = self.sessions.remove(i);
        r.cancelled = true;
        self.sessions.insert(i, r);
        assert(distinct_ids(self@)) by {
            assert forall|a: int, c: int| 0 <= a < c < self@.len() implies (#[trigger] self@[a]).session_id@
                != (#[trigger] self@[c]).session_id@ by {
                assert(self@[a].session_id == old(self)@[a].session_id);
                assert(self@[c].session_id == old(self)@[c].session_id);
            }
        }
    }
}

/// Cancels session `id`: its conversion stops at the next check. The
/// caller also stops the running backend processes.
pub fn cancel(table: &mut SessionTable, session_id: &str) -> (r: Result<(), ConversionError>)
    requires
        old(table).wf(),
    ensures
        final(table).wf(),
        match position_of(old(table)@, session_id@) {
            None => fails_with(r, missing_session(session_id@)) && final(table)@ == old(table)@,
            Some(i) => r is Ok && final(table)@.len() == old(table)@.len() && final(table)@[i].cancelled && (forall|
                k: int,
            | 0 <= k < old(table)@.len() && k != i ==> final(table)@[k] == old(table)@[k]),
        },
{
    match table.index_of(session_id) {
        None => {
            let mut m = "转换会话不存在：".to_owned();
            push_str(&mut m, session_id);
            Err(ConversionError::new(CODE_ERROR, m))
        },
        Some(i) => {
            table.set_cancelled(i);
            Ok(())
        },
    }
}

/// The version a session converts from: a Java world's own, or for Bedrock
/// the version that the Bedrock backend produces.
pub open spec fn source_version_of(world: WorldInfo) -> Seq<char> {
    if world.world_type == WorldType::Java {
        world.detected_version@
    } else {
        version_text(je2be_intermediate_spec())
    }
}

/// Whether converting session `id` to `target` goes back in version; `false`
/// when either version cannot be read.
pub fn is_downgrade(table: &SessionTable, session_id: &str, target: &str) -> (r: Result<bool, ConversionError>)
    requires
        table.wf(),
    ensures
        match position_of(table@, session_id@) {
            None => fails_with(r, missing_session(session_id@)),
            Some(i) => r == Ok::<bool, ConversionError>(
                downgrade_of(source_version_of(table@[i].world), target@) == Some(true),
            ),
        },
{
    let s = table.find(session_id)?;
    let source = if s.world.world_type == WorldType::Java {
        string_of(&chars_of(s.world.detected_version.as_str()))
    } else {
        je2be_intermediate().to_text()
    };
    match is_downgrade_opt(source.as_str(), target) {
        Some(b) => Ok(b),
        None => Ok(false),
    }
}

/// The result kept for session `id`.
pub fn stored_result<'a>(table: &'a SessionTable, session_id: &str) -> (r: Result<&'a StoredResult, ConversionError>)
    requires
        table.wf(),
    ensures
        match position_of(table@, session_id@) {
            None => fails_with(r, missing_session(session_id@)),
            Some(i) => match table@[i].result {
                Some(x) => r matches Ok(y) && *y == x,
                None => fails_with(r, "当前没有可保存的转换结果"@),
            },
        },
{
    let s = table.find(session_id)?;
    match &s.result {
        Some(x) => Ok(x),
        None => Err(ConversionError::new(CODE_ERROR, "当前没有可保存的转换结果".to_owned())),
    }
}

/// The latest session of the archive at `input`, by identifier: the last of
/// the greatest identifiers in table order.
pub open spec fn latest_for(s: Seq<SessionRecord>, input: Seq<Seq<char>>) -> Option<int>
    decreases s.len(),
{
    if s.len() == 0 {
        None
    } else {
        let prev = latest_for(s.drop_last(), input);
        if parts(s.last().input_zip@) == input && (prev is None || !seq_lt(
            s.last().session_id@,
            s[prev.unwrap()].session_id@,
        )) {
            Some(s.len() - 1)
        } else {
            prev
        }
    }
}

proof fn lemma_latest_in_range(s: Seq<SessionRecord>, input: Seq<Seq<char>>)
    ensures
        latest_for(s, input) matches Some(i) ==> 0 <= i < s.len(),
    decreases s.len(),
{
    if s.len() > 0 {
        lemma_latest_in_range(s.drop_last(), input);
    }
}

fn same_path(a: &Vec<String>, b: &Vec<String>) -> (r: bool)
    ensures
        r == (parts(a@) == parts(b@)),
{
    if a.len() != b.len() {
        return false;
    }
    let same = crate::archive::path_starts_with(a, b);
    proof {
        if same {
            assert(parts(a@).subrange(0, parts(b@).len() as int) =~= parts(a@));
        }
        if parts(a@) == parts(b@) {
            assert(parts(a@).subrange(0, parts(b@).len() as int) =~= parts(b@));
        }
    }
    same
}

impl SessionTable {
    /// The latest session of the archive at `input` (see `latest_for`).
    pub fn latest_for_input(&self, input: &Vec<String>) -> (r: Option<&SessionRecord>)
        ensures
            match latest_for(self@, parts(input@)) {
                Some(i) => r matches Some(x) && *x == self@[i],
                None => r is None,
            },
    {
        let mut best: Option<usize> = None;
        let mut i: usize = 0;
        while i < self.sessions.len()
            invariant
                i <= self@.len(),
                self@ == self.sessions@,
                best == match latest_for(self@.take(i as int), parts(input@)) {
                    Some(b) => Some(b as usize),
                    None => None::<usize>,
                },
                latest_for(self@.take(i as int), parts(input@)) matches Some(b) ==> 0 <= b < i,
            decreases self@.len() - i,
        {
            proof {
                lemma_latest_in_range(self@.take(i as int), parts(input@));
            }
            assert(self@.take(i + 1).drop_last() =~= self@.take(i as int));
            assert(self@.take(i + 1).last() == self@[i as int]);
            let r = &self.sessions[i];
            if same_path(&r.input_zip, input) {
                let take = match best {
                    None => true,
                    Some(b) => {
                        assert(self@.take(i + 1)[b as int] == self@[b as int]);
                        !str_lt(r.session_id.as_str(), self.sessions[b].session_id.as_str())
                    },
                };
                if take {
                    best = Some(i);
                }
            } else {
            }
            i += 1;
        }
        assert(self@.take(self@.len() as int) =~= self@);
        match best {
            Some(b) => Some(&self.sessions[b]),
            None => None,
        }
    }
}

/// What to export when a conversion failed: the log of the session and
/// where its archive is, with the message to append.
#[derive(Debug)]
pub struct ReportRequest {
    pub session_id: String,
    pub input_zip: Vec<String>,
    pub message: String,
}

/// The report to export for a failed conversion of session `id`.
pub fn export_conversion_error(table: &SessionTable, session_id: &str, message: &str) -> (r: Result<
    ReportRequest,
    ConversionError,
>)
    requires
        table.wf(),
    ensures
        match position_of(table@, session_id@) {
            None => fails_with(r, missing_session(session_id@)),
            Some(i) => r matches Ok(q) && q.session_id@ == session_id@ && parts(q.input_zip@) == parts(
                table@[i].input_zip@,
            ) && q.message@ == message@,
        },
{
    let s = table.find(session_id)?;
    let mut input: Vec<String> = Vec::new();
    let mut k: usize = 0;
    while k < s.input_zip.len()
        invariant
            k <= s.input_zip@.len(),
            parts(input@) == parts(s.input_zip@).take(k as int),
        decreases s.input_zip@.len() - k,
    {
        let ghost before = input@;
        input.push(string_of(&chars_of(s.input_zip[k].as_str())));
        assert(parts(input@) =~= parts(before).push(s.input_zip@[k as int]@));
        assert(parts(s.input_zip@).take(k + 1) =~= parts(s.input_zip@).take(k as int).push(s.input_zip@[k as int]@));
        k += 1;
    }
    assert(parts(s.input_zip@).take(s.input_zip@.len() as int) =~= parts(s.input_zip@));
    Ok(ReportRequest {
        session_id: string_of(&chars_of(session_id)),
        input_zip: input,
        message: string_of(&chars_of(message)),
    })
}


// ----- analysis -----

/// Only an existing `.zip` or `.mcworld` file (by its lower-cased name) is
/// analysed.
pub fn check_input(name: &str, is_file: bool) -> (r: Result<(), ConversionError>)
    ensures
        !has_suffix(spec_lowercase(name@), ".zip"@) && !has_suffix(spec_lowercase(name@), ".mcworld"@) ==> fails_with(
            r,
            "仅支持 .zip 或 .mcworld 存档文件"@,
        ),
        (has_suffix(spec_lowercase(name@), ".zip"@) || has_suffix(spec_lowercase(name@), ".mcworld"@)) ==> if is_file {
            r is Ok
        } else {
            fails_with(r, "文件不存在"@)
        },
{
    let lower = to_lowercase(name);
    if !crate::text::ends_with(lower.as_str(), ".zip") && !crate::text::ends_with(lower.as_str(), ".mcworld") {
        return Err(ConversionError::new(CODE_ERROR, "仅支持 .zip 或 .mcworld 存档文件".to_owned()));
    }
    if !is_file {
        return Err(ConversionError::new(CODE_ERROR, "文件不存在".to_owned()));
    }
    Ok(())
}

pub open spec fn texts(v: Seq<String>) -> Seq<Seq<char>> {
    v.map_values(|s: String| s@)
}

/// The world recorded when a look into the archive found the legacy AES
/// header, without extracting it.
pub fn legacy_world(extracted: Vec<String>, input_name: &str) -> (w: WorldInfo)
    ensures
        w.root == extracted,
        w.database_directory is None,
        w.world_type == WorldType::NeteaseBedrockLegacyAes,
        w.detected_version@ == "基岩 LevelDB（旧版 AES-CFB8 加密）"@,
        w.world_name@ == without_extension(input_name@),
        w.file_count == 0,
        w.byte_count == 0,
        texts(w.notes@) == seq!["在解压前即嗅探到 90 1D 30 01 旧版加密头；该格式无法离线恢复密钥"@],
{
    let mut notes: Vec<String> = Vec::new();
    notes.push("在解压前即嗅探到 90 1D 30 01 旧版加密头；该格式无法离线恢复密钥".to_owned());
    assert(texts(notes@) =~= seq!["在解压前即嗅探到 90 1D 30 01 旧版加密头；该格式无法离线恢复密钥"@]);
    WorldInfo {
        root: extracted,
        database_directory: None,
        world_type: WorldType::NeteaseBedrockLegacyAes,
        detected_version: "基岩 LevelDB（旧版 AES-CFB8 加密）".to_owned(),
        world_name: strip_extension(input_name),
        file_count: 0,
        byte_count: 0,
        notes,
    }
}

/// Whether a world can be converted: not one encrypted with the legacy
/// scheme, and not a Java world when no target is known.
pub fn analysis_supported(world_type: WorldType, no_targets: bool) -> (r: bool)
    ensures
        r == !(world_type == WorldType::NeteaseBedrockLegacyAes || (world_type == WorldType::Java && no_targets)),
{
    match world_type {
        WorldType::NeteaseBedrockLegacyAes => false,
        WorldType::Java => !no_targets,
        _ => true,
    }
}

/// Whether an error report is exported right after the analysis: for an
/// unsupported world encrypted with the legacy scheme.
pub fn analysis_reports_error(world_type: WorldType, supported: bool) -> (r: bool)
    ensures
        r == (!supported && world_type == WorldType::NeteaseBedrockLegacyAes),
{
    !supported && world_type == WorldType::NeteaseBedrockLegacyAes
}

/// The bytes needed to extract an archive of `zip_size` bytes: three times
/// its size and 256 MiB.
pub fn extract_space_needed(zip_size: u64) -> (r: u64)
    requires
        zip_size * 3 + 268435456 <= u64::MAX,
    ensures
        r == zip_size * 3 + 268435456,
{
    zip_size * 3 + 268435456
}

/// The bytes needed to convert a world of `bytes` bytes: three times its
/// size and 1 GiB.
pub fn work_space_needed(bytes: u64) -> (r: u64)
    requires
        bytes * 3 + 1073741824 <= u64::MAX,
    ensures
        r == bytes * 3 + 1073741824,
{
    bytes * 3 + 1073741824
}

// ----- conversion -----

/// The backend format for the target `target`: the format of the known target
/// shown under that name, else the format of the version the text names.
pub open spec fn chunker_format_for(targets: Seq<TargetVersion>, target: Seq<char>) -> Result<Seq<char>, Seq<char>> {
    if exists|i: int| 0 <= i < targets.len() && (#[trigger] targets[i]).display_name@ == target {
        let i = choose|i: int|
            0 <= i < targets.len() && (#[trigger] targets[i]).display_name@ == target && forall|j: int|
                0 <= j < i ==> (#[trigger] targets[j]).display_name@ != target;
        Ok(targets[i].chunker_format@)
    } else {
        match parsed_version(target) {
            Some(v) => Ok(chunker_format_of(v)),
            None => Err("未知的目标版本："@ + target),
        }
    }
}

/// The backend format for a target (see `chunker_format_for`).
pub fn resolve_chunker_format(targets: &Vec<TargetVersion>, target: &str) -> (r: Result<String, ConversionError>)
    ensures
        match chunker_format_for(targets@, target@) {
            Ok(f) => r matches Ok(s) && s@ == f,
            Err(m) => fails_with(r, m),
        },
{
    let mut i: usize = 0;
    while i < targets.len()
        invariant
            i <= targets@.len(),
            forall|j: int| 0 <= j < i ==> (#[trigger] targets@[j]).display_name@ != target@,
        decreases targets@.len() - i,
    {
        if str_eq(targets[i].display_name.as_str(), target) {
            proof {
                let c = choose|c: int|
                    0 <= c < targets@.len() && (#[trigger] targets@[c]).display_name@ == target@ && forall|j: int|
                        0 <= j < c ==> (#[trigger] targets@[j]).display_name@ != target@;
                assert(0 <= i < targets@.len() && targets@[i as int].display_name@ == target@ && forall|j: int|
                    0 <= j < i ==> (#[trigger] targets@[j]).display_name@ != target@);
                assert(c == i) by {
                    if c < i {
                        assert(targets@[c].display_name@ != target@);
                    } else if c > i {
                        assert(targets@[i as int].display_name@ != target@);
                    }
                }
            }
            return Ok(string_of(&chars_of(targets[i].chunker_format.as_str())));
        }
        i += 1;
    }
    match parse_version(target) {
        Some(v) => Ok(chunker_format(v)),
        None => {
            let mut m = "未知的目标版本：".to_owned();
            push_str(&mut m, target);
            Err(ConversionError::new(CODE_ERROR, m))
        },
    }
}

/// The way a conversion goes.
#[derive(Debug, Clone, Copy, PartialEq, Eq, Structural)]
pub enum Route {
    /// A Java world already at the target version: copied file by file.
    JavaCopy,
    /// A Java world through the cross-version backend; `downgrade` says
    /// whether the version goes back.
    JavaChunker { downgrade: bool },
    /// A Bedrock world whose target is what the Bedrock backend produces.
    BedrockDirect,
    /// A Bedrock world through both backends; `downgrade` says whether the
    /// version goes back from what the Bedrock backend produces.
    BedrockChunker { downgrade: bool },
}

/// The route of a conversion from a world of `world_type` at `source` to
/// `target`.
pub open spec fn route_of(world_type: WorldType, source: Seq<char>, target: Seq<char>) -> Route {
    if world_type == WorldType::Java {
        match (parsed_version(source), parsed_version(target)) {
            (Some(s), Some(t)) => if s == t {
                Route::JavaCopy
            } else {
                Route::JavaChunker { downgrade: downgrade_of(source, target) == Some(true) }
            },
            _ => Route::JavaChunker { downgrade: downgrade_of(source, target) == Some(true) },
        }
    } else if parsed_version(target) == Some(je2be_intermediate_spec()) {
        Route::BedrockDirect
    } else {
        Route::BedrockChunker {
            downgrade: downgrade_of(version_text(je2be_intermediate_spec()), target) == Some(true),
        }
    }
}

/// A Java world is copied unchanged only when the source and the target name
/// the same version, in major, minor and patch; any other Java conversion
/// goes through the cross-version backend. A Bedrock world never takes a
/// Java route.
pub proof fn law_java_copy_only_at_same_version(world_type: WorldType, source: Seq<char>, target: Seq<char>)
    ensures
        world_type == WorldType::Java ==> (route_of(world_type, source, target) == Route::JavaCopy <==> (parsed_version(
            source,
        ) matches Some(s) && parsed_version(target) matches Some(t) && s.major == t.major && s.minor == t.minor
            && s.patch == t.patch)),
        world_type == WorldType::Java && route_of(world_type, source, target) != Route::JavaCopy ==> route_of(
            world_type,
            source,
            target,
        ) is JavaChunker,
        world_type != WorldType::Java ==> !(route_of(world_type, source, target) is JavaCopy) && !(route_of(
            world_type,
            source,
            target,
        ) is JavaChunker),
{
}

/// Decides the route of a conversion (see `route_of`).
pub fn conversion_route(world_type: WorldType, source: &str, target: &str) -> (r: Route)
    ensures
        r == route_of(world_type, source@, target@),
{
    if world_type == WorldType::Java {
        let same = match (parse_version(source), parse_version(target)) {
            (Some(s), Some(t)) => s == t,
            _ => false,
        };
        if same {
            Route::JavaCopy
        } else {
            let downgrade = match is_downgrade_opt(source, target) {
                Some(b) => b,
                None => false,
            };
            Route::JavaChunker { downgrade }
        }
    } else {
        let inter = je2be_intermediate();
        let direct = match parse_version(target) {
            Some(t) => t == inter,
            None => false,
        };
        if direct {
            Route::BedrockDirect
        } else {
            let downgrade = match is_downgrade_opt(inter.to_text().as_str(), target) {
                Some(b) => b,
                None => false,
            };
            Route::BedrockChunker { downgrade }
        }
    }
}

/// The note on a downgrade that kept source data aside.
pub fn preserved_note() -> (r: String)
    ensures
        r@ == "降级转换：不可映射的实体/POI/玩家已保存到 _NWC_preserved_source"@,
{
    "降级转换：不可映射的实体/POI/玩家已保存到 _NWC_preserved_source".to_owned()
}


/// The note on how entities were handled: the notes joined with `；`, or
/// that every region file passed.
pub open spec fn region_note_of(notes: Seq<Seq<char>>, region_files: int) -> Seq<char> {
    if notes.len() == 0 {
        dec_int(region_files) + " 个区域文件全部通过结构验证"@
    } else {
        joined_with(notes, "；"@)
    }
}

/// The note on how entities were handled (see `region_note_of`).
pub fn region_note(notes: &Vec<String>, region_files: i64) -> (r: String)
    ensures
        r@ == region_note_of(texts(notes@), region_files as int),
{
    if notes.len() == 0 {
        let mut m = dec_string(region_files);
        push_str(&mut m, " 个区域文件全部通过结构验证");
        return m;
    }
    let ghost all = texts(notes@);
    let mut out = String::new();
    let mut i: usize = 0;
    while i < notes.len()
        invariant
            i <= notes@.len(),
            all == texts(notes@),
            out@ == joined_with(all.take(i as int), "；"@),
        decreases notes@.len() - i,
    {
        assert(all.take(i + 1).drop_last() =~= all.take(i as int));
        if i > 0 {
            push_str(&mut out, "；");
        }
        push_str(&mut out, notes[i].as_str());
        proof {
            if i == 0 {
                assert(all.take(1) =~= seq![all[0]]);
            }
        }
        i += 1;
    }
    assert(all.take(notes@.len() as int) =~= all);
    out
}

/// The lines of the conversion report written next to the converted world.
pub open spec fn report_lines(
    time: Seq<char>,
    input: Seq<char>,
    world: WorldInfo,
    target: Seq<char>,
    v: ValidationResult,
    note: Seq<char>,
) -> Seq<Seq<char>> {
    seq![
        "Netease World Converter 转换报告"@,
        "时间: "@ + time,
        "输入 ZIP: "@ + input,
        "识别类型: "@ + crate::models::display_name_of(world.world_type),
        "检测版本: "@ + world.detected_version@,
        "目标版本: Java "@ + target,
        "区域文件: "@ + dec_int(v.region_files as int),
        "区域记录: "@ + dec_int(v.region_chunks as int),
        "输出文件: "@ + dec_int(v.files as int),
        "输出字节: "@ + dec_int(v.bytes as int),
        "输出 DataVersion: "@ + dec_int(v.data_version as int),
        "输出 Version.Name: "@ + v.level_version@,
        "实体/POI/玩家处理: "@ + note,
        Seq::empty(),
        "说明：跨版本降级无法表示目标版本尚不存在的内容；原始 ZIP 从未被修改。"@,
    ]
}

fn line_of(label: &str, value: &str) -> (r: String)
    ensures
        r@ == label@ + value@,
{
    let mut s = label.to_owned();
    push_str(&mut s, value);
    s
}

/// The text of the conversion report: its lines, each ended by a newline.
/// `time` is the local time of the report, `input` the archive as shown.
pub fn conversion_report(
    time: &str,
    input: &str,
    world: &WorldInfo,
    target: &str,
    v: &ValidationResult,
    note: &str,
) -> (r: String)
    ensures
        r@ == joined_with(report_lines(time@, input@, *world, target@, *v, note@), "\n"@) + "\n"@,
{
    let mut lines: Vec<String> = Vec::new();
    lines.push("Netease World Converter 转换报告".to_owned());
    lines.push(line_of("时间: ", time));
    lines.push(line_of("输入 ZIP: ", input));
    lines.push(line_of("识别类型: ", world.world_type.display_name()));
    lines.push(line_of("检测版本: ", world.detected_version.as_str()));
    lines.push(line_of("目标版本: Java ", target));
    lines.push(line_of("区域文件: ", dec_string(v.region_files).as_str()));
    lines.push(line_of("区域记录: ", dec_string(v.region_chunks).as_str()));
    lines.push(line_of("输出文件: ", dec_string(v.files).as_str()));
    lines.push(line_of("输出字节: ", dec_string(v.bytes).as_str()));
    lines.push(line_of("输出 DataVersion: ", dec_string(v.data_version as i64).as_str()));
    lines.push(line_of("输出 Version.Name: ", v.level_version.as_str()));
    lines.push(line_of("实体/POI/玩家处理: ", note));
    lines.push(String::new());
    lines.push("说明：跨版本降级无法表示目标版本尚不存在的内容；原始 ZIP 从未被修改。".to_owned());
    assert(texts(lines@) =~= report_lines(time@, input@, *world, target@, *v, note@));
    let mut out = crate::backends::join_with(&lines, "\n");
    assert(texts(lines@) == lines@.map_values(|s: String| s@));
    push_str(&mut out, "\n");
    out
}


/// `s` with every space replaced by `_`.
pub open spec fn spaces_to_underscores(s: Seq<char>) -> Seq<char> {
    Seq::new(s.len(), |i: int| if s[i] == ' ' { '_' } else { s[i] })
}

/// The name of the converted archive: the input's name without extension,
/// made safe, then `-`, the target with `_` for spaces, and `.zip`.
pub open spec fn result_zip_name_of(input_name: Seq<char>, target: Seq<char>) -> Seq<char> {
    safe_folder_name_of(without_extension(input_name)) + "-"@ + spaces_to_underscores(target) + ".zip"@
}

/// The name of the converted archive (see `result_zip_name_of`).
pub fn result_zip_name(input_name: &str, target: &str) -> (r: String)
    ensures
        r@ == result_zip_name_of(input_name@, target@),
{
    let mut s = safe_folder_name(strip_extension(input_name).as_str());
    push_str(&mut s, "-");
    let v = chars_of(target);
    let mut w: Vec<char> = Vec::new();
    let mut i: usize = 0;
    while i < v.len()
        invariant
            i <= v@.len(),
            v@ == target@,
            w@ == spaces_to_underscores(target@).take(i as int),
        decreases v@.len() - i,
    {
        let c = if v[i] == ' ' { '_' } else { v[i] };
        w.push(c);
        assert(spaces_to_underscores(target@).take(i + 1) =~= spaces_to_underscores(target@).take(i as int).push(c));
        i += 1;
    }
    assert(spaces_to_underscores(target@).take(v@.len() as int) =~= spaces_to_underscores(target@));
    push_str(&mut s, string_of(&w).as_str());
    push_str(&mut s, ".zip");
    s
}

/// The name of an exported error report: the input's safe base name,
/// `-error-`, the time stamp and `.log`.
pub fn error_report_name(input_name: &str, stamp: &str) -> (r: String)
    ensures
        r@ == safe_folder_name_of(without_extension(input_name@)) + "-error-"@ + stamp@ + ".log"@,
{
    let mut s = safe_folder_name(strip_extension(input_name).as_str());
    push_str(&mut s, "-error-");
    push_str(&mut s, stamp);
    push_str(&mut s, ".log");
    s
}

/// The failure when no place took the error report.
pub fn report_export_failure(last_error: Option<String>) -> (e: ConversionError)
    ensures
        e.code@ == CODE_ERROR@,
        e.message@ == "错误报告导出失败："@ + match last_error {
            Some(m) => m@,
            None => Seq::empty(),
        },
{
    let mut m = "错误报告导出失败：".to_owned();
    match last_error {
        Some(x) => push_str(&mut m, x.as_str()),
        None => {},
    }
    ConversionError::new(CODE_ERROR, m)
}

/// A session identifier: a time stamp, `-` and a counter.
pub fn session_id_of(stamp: &str, counter: u64) -> (r: String)
    ensures
        r@ == stamp@ + "-"@ + dec_int(counter as int),
{
    let mut s = string_of(&chars_of(stamp));
    push_str(&mut s, "-");
    push_str(&mut s, dec_string_u64(counter).as_str());
    s
}


/// A temporary directory left by an earlier run that can go: one renamed for
/// removal on exit, or a working directory older than two hours. Its age is
/// given as whole seconds and the nanoseconds beyond them.
pub open spec fn stale_temp_of(name: Seq<char>, age: Option<(u64, u32)>) -> bool {
    if has_prefix(name, ".NeteaseWorldConverter-"@) && contains_text(name, "-orphan-"@) {
        true
    } else if has_prefix(name, "NeteaseWorldConverter-"@) {
        age matches Some((secs, nanos)) && (secs > 7200 || (secs == 7200 && nanos > 0))
    } else {
        false
    }
}

/// Whether a temporary directory of an earlier run can be removed (see
/// `stale_temp_of`); `age` is its age, when known, as whole seconds and
/// the nanoseconds beyond them.
pub fn stale_temp(name: &str, age: Option<(u64, u32)>) -> (r: bool)
    ensures
        r == stale_temp_of(name@, age),
{
    if starts_with(name, ".NeteaseWorldConverter-") && contains_str(name, "-orphan-") {
        true
    } else if starts_with(name, "NeteaseWorldConverter-") {
        match age {
            Some((secs, nanos)) => secs > 7200 || (secs == 7200 && nanos > 0),
            None => false,
        }
    } else {
        false
    }
}

/// The name a temporary directory is renamed to on exit, for removal later.
pub fn orphan_name(name: &str, pid: u32) -> (r: String)
    ensures
        r@ == "."@ + name@ + "-orphan-"@ + dec_int(pid as int),
{
    let mut s = ".".to_owned();
    push_str(&mut s, name);
    push_str(&mut s, "-orphan-");
    push_str(&mut s, dec_string_u64(pid as u64).as_str());
    s
}

/// Whether a file name has an extension: a `.` after its first character.
pub open spec fn has_extension(name: Seq<char>) -> bool {
    without_extension(name) != name
}

/// Where a result is saved: the chosen path, with `.zip` added to a file
/// name without extension.
pub open spec fn save_destination_of(dest: Seq<Seq<char>>) -> Seq<Seq<char>> {
    let name = file_name_of(dest);
    if name.len() > 0 && !has_extension(name) {
        dest.drop_last().push(name + ".zip"@)
    } else {
        dest
    }
}

/// Where a result is saved (see `save_destination_of`).
pub fn save_destination(dest: &Vec<String>) -> (r: Vec<String>)
    ensures
        parts(r@) == save_destination_of(parts(dest@)),
{
    let name = crate::archive::file_name(dest);
    let stripped = strip_extension(name.as_str());
    let mut out: Vec<String> = Vec::new();
    let mut i: usize = 0;
    while i < dest.len()
        invariant
            i <= dest@.len(),
            parts(out@) == parts(dest@).take(i as int),
        decreases dest@.len() - i,
    {
        let ghost before = out@;
        out.push(string_of(&chars_of(dest[i].as_str())));
        assert(parts(out@) =~= parts(before).push(dest@[i as int]@));
        assert(parts(dest@).take(i + 1) =~= parts(dest@).take(i as int).push(dest@[i as int]@));
        i += 1;
    }
    assert(parts(dest@).take(dest@.len() as int) =~= parts(dest@));
    if !name.as_str().is_empty() && str_eq(stripped.as_str(), name.as_str()) {
        let mut n = string_of(&chars_of(name.as_str()));
        push_str(&mut n, ".zip");
        let ghost before = parts(out@);
        let _ = out.pop();
        out.push(n);
        assert(parts(out@) =~= before.drop_last().push(file_name_of(parts(dest@)) + ".zip"@));
    }
    out
}

/// The message when the chosen destination is the input archive itself.
pub open spec fn overwrite_input_msg() -> Seq<char> {
    "不能覆盖原始存档，请选择其他保存位置"@
}

/// Saving never writes over the archive that was converted: refuses a
/// destination with the same components as the input.
pub fn check_save_destination(dest: &Vec<String>, input: &Vec<String>) -> (r: Result<(), ConversionError>)
    ensures
        r is Err <==> parts(dest@) == parts(input@),
        r is Err ==> fails_with(r, overwrite_input_msg()),
{
    if crate::archive::paths_equal(dest, input) {
        let m = "不能覆盖原始存档，请选择其他保存位置";
        proof {
            reveal_strlit("不能覆盖原始存档，请选择其他保存位置");
        }
        return crate::error::fail(m);
    }
    Ok(())
}

/// The temporary file a result is first written to, beside the destination:
/// its last component followed by `.nwc-saving`. Replacing the destination with it
/// leaves an existing file intact when writing fails.
pub open spec fn save_temp_of(dest: Seq<Seq<char>>) -> Seq<Seq<char>> {
    dest.drop_last().push(dest.last() + ".nwc-saving"@)
}

/// The temporary file a result is first written to (see `save_temp_of`).
pub fn save_temp_path(dest: &Vec<String>) -> (r: Vec<String>)
    requires
        dest@.len() > 0,
    ensures
        parts(r@) == save_temp_of(parts(dest@)),
{
    let mut out: Vec<String> = Vec::new();
    let mut i: usize = 0;
    let last = dest.len() - 1;
    while i < last
        invariant
            i <= last,
            last == dest@.len() - 1,
            parts(out@) == parts(dest@).take(i as int),
        decreases dest@.len() - i,
    {
        let ghost before = out@;
        out.push(string_of(&chars_of(dest[i].as_str())));
        assert(parts(out@) =~= parts(before).push(dest@[i as int]@));
        assert(parts(dest@).take(i + 1) =~= parts(dest@).take(i as int).push(dest@[i as int]@));
        i += 1;
    }
    assert(parts(dest@).take(i as int) =~= parts(dest@).drop_last());
    let mut n = string_of(&chars_of(dest[i].as_str()));
    push_str(&mut n, ".nwc-saving");
    let ghost before = parts(out@);
    out.push(n);
    assert(parts(out@) =~= before.push(parts(dest@).last() + ".nwc-saving"@));
    out
}

// ----- progress and log lines -----

/// A progress report, its percentage clamped to 0..=100.
pub fn progress_payload(session_id: &str, percent: i32, stage: &str, detail: &str) -> (r: ProgressPayload)
    ensures
        r.session_id@ == session_id@,
        r.percent == if percent < 0 { 0 } else if percent > 100 { 100 } else { percent as u32 },
        r.stage@ == stage@,
        r.detail@ == detail@,
{
    let p: u32 = if percent < 0 {
        0
    } else if percent > 100 {
        100
    } else {
        percent as u32
    };
    ProgressPayload {
        session_id: string_of(&chars_of(session_id)),
        percent: p,
        stage: string_of(&chars_of(stage)),
        detail: string_of(&chars_of(detail)),
    }
}

/// The answer to a check for cancellation.
pub fn cancel_check(cancelled: bool) -> (r: Result<(), ConversionError>)
    ensures
        !cancelled ==> r is Ok,
        cancelled ==> (r matches Err(e) && is_error(e, CODE_CANCELLED@, "操作已取消"@)),
{
    if cancelled {
        Err(ConversionError::new(CODE_CANCELLED, "操作已取消".to_owned()))
    } else {
        Ok(())
    }
}

/// The progress detail while files are processed: `done / total` and a word
/// for what they are.
pub fn count_detail(done: u64, total: u64, what: &str) -> (r: String)
    ensures
        r@ == dec_int(done as int) + " / "@ + dec_int(total as int) + " 个"@ + what@,
{
    let mut s = dec_string_u64(done);
    push_str(&mut s, " / ");
    push_str(&mut s, dec_string_u64(total).as_str());
    push_str(&mut s, " 个");
    push_str(&mut s, what);
    s
}

/// A line of the conversion log: time stamp, level in brackets, message.
pub fn log_line(stamp: &str, level: &str, message: &str) -> (r: String)
    ensures
        r@ == stamp@ + " ["@ + level@ + "] "@ + message@,
{
    let mut s = string_of(&chars_of(stamp));
    push_str(&mut s, " [");
    push_str(&mut s, level);
    push_str(&mut s, "] ");
    push_str(&mut s, message);
    s
}

/// The line that follows an error entry of the log.
pub fn error_detail_line(e: &ConversionError) -> (r: String)
    ensures
        r@ == "ConversionError: "@ + e.message@,
{
    let mut s = "ConversionError: ".to_owned();
    push_str(&mut s, e.message.as_str());
    s
}

/// A log line for the user interface.
pub fn log_payload(session_id: &str, line: &str) -> (r: LogPayload)
    ensures
        r.session_id@ == session_id@,
        r.line@ == line@,
{
    LogPayload { session_id: string_of(&chars_of(session_id)), line: string_of(&chars_of(line)) }
}


// ----- Bedrock attachments -----

/// The files of a Bedrock world's root that still mean something to Java.
pub fn bedrock_assets() -> (r: Vec<&'static str>)
    ensures
        r@.map_values(|s: &str| s@) == seq!["datapacks"@, "resources.zip"@, "icon.png"@],
{
    let v = vec!["datapacks", "resources.zip", "icon.png"];
    assert(v@.map_values(|s: &str| s@) =~= seq!["datapacks"@, "resources.zip"@, "icon.png"@]);
    v
}

/// What happens to an attachment of the Bedrock world.
#[derive(Debug, Clone, Copy, PartialEq, Eq, Structural)]
pub enum AssetAction {
    /// Nothing: it is missing, or the output has one and only missing ones
    /// are filled in.
    Skip,
    /// A directory: the output's copy is removed and the tree copied.
    ReplaceDir,
    /// A file: copied over the output's.
    CopyFile,
}

/// What to do with an attachment, given what exists.
pub fn asset_action(
    source_exists: bool,
    source_is_dir: bool,
    source_is_file: bool,
    only_if_missing: bool,
    destination_exists: bool,
) -> (r: AssetAction)
    ensures
        r == if !source_exists || (only_if_missing && destination_exists) {
            AssetAction::Skip
        } else if source_is_dir {
            AssetAction::ReplaceDir
        } else if source_is_file {
            AssetAction::CopyFile
        } else {
            AssetAction::Skip
        },
{
    if !source_exists || (only_if_missing && destination_exists) {
        AssetAction::Skip
    } else if source_is_dir {
        AssetAction::ReplaceDir
    } else if source_is_file {
        AssetAction::CopyFile
    } else {
        AssetAction::Skip
    }
}

} // verus!
