//! Rename tracing: following each current file back through the history, so
//! that every change to it is credited under the name it has today.
use vstd::prelude::*;
use crate::git::{
    hashes_distinct, ChangeKind, ChangeType, CommitFileInfo, CommitInfo, CommitMap, CommitView,
    FileChangeView,
};
use crate::strmap::StrMap;
use crate::text::{chars_of, string_of};

verus! {

/// Each file of today traces to itself.
pub open spec fn initial_traces(files: Seq<Seq<char>>) -> Map<Seq<char>, Seq<char>> {
    Map::new(|k: Seq<char>| files.contains(k), |k: Seq<char>| k)
}

/// A file change once its recent name is looked up in the traces `t`.
pub open spec fn traced_file(t: Map<Seq<char>, Seq<char>>, f: FileChangeView) -> FileChangeView {
    if t.contains_key(f.file_name) {
        FileChangeView { recent: Some(t[f.file_name]), ..f }
    } else {
        f
    }
}

/// A traced file that this change ends the trace of: it was renamed or added here.
pub open spec fn leaves_trace(t: Map<Seq<char>, Seq<char>>, f: FileChangeView) -> bool {
    &&& t.contains_key(f.file_name)
    &&& (f.change is Renamed || f.change is Added)
}

/// The names whose traces the changes `fs` end, in order.
pub open spec fn left_names(t: Map<Seq<char>, Seq<char>>, fs: Seq<FileChangeView>) -> Seq<Seq<char>>
    decreases fs.len(),
{
    if fs.len() == 0 {
        Seq::empty()
    } else if leaves_trace(t, fs.last()) {
        left_names(t, fs.drop_last()).push(fs.last().file_name)
    } else {
        left_names(t, fs.drop_last())
    }
}

/// The traces that the renames among `fs` carry on: the old name now traces
/// to what the new name traced to.
pub open spec fn rename_pairs(t: Map<Seq<char>, Seq<char>>, fs: Seq<FileChangeView>) -> Seq<(Seq<char>, Seq<char>)>
    decreases fs.len(),
{
    if fs.len() == 0 {
        Seq::empty()
    } else {
        let f = fs.last();
        let prev = rename_pairs(t, fs.drop_last());
        match f.change {
            ChangeKind::Renamed(old) => if t.contains_key(f.file_name) {
                prev.push((old, t[f.file_name]))
            } else {
                prev
            },
            _ => prev,
        }
    }
}

pub open spec fn remove_all(m: Map<Seq<char>, Seq<char>>, names: Seq<Seq<char>>) -> Map<Seq<char>, Seq<char>>
    decreases names.len(),
{
    if names.len() == 0 {
        m
    } else {
        remove_all(m, names.drop_last()).remove(names.last())
    }
}

pub open spec fn insert_all(m: Map<Seq<char>, Seq<char>>, pairs: Seq<(Seq<char>, Seq<char>)>) -> Map<Seq<char>, Seq<char>>
    decreases pairs.len(),
{
    if pairs.len() == 0 {
        m
    } else {
        insert_all(m, pairs.drop_last()).insert(pairs.last().0, pairs.last().1)
    }
}

/// The traces after a commit with changes `fs`: the ended traces dropped,
/// then the renamed ones carried on to the old names.
pub open spec fn next_traces(t: Map<Seq<char>, Seq<char>>, fs: Seq<FileChangeView>) -> Map<Seq<char>, Seq<char>> {
    insert_all(remove_all(t, left_names(t, fs)), rename_pairs(t, fs))
}

/// A commit once the recent names of its files are looked up in `t`.
pub open spec fn trace_commit(t: Map<Seq<char>, Seq<char>>, c: CommitView) -> CommitView {
    CommitView { files: c.files.map_values(|f: FileChangeView| traced_file(t, f)), ..c }
}

/// The commits after the ones at positions `order` are traced in turn,
/// starting from the traces `t`; tracing stops once no trace is left.
pub open spec fn trace_from(t: Map<Seq<char>, Seq<char>>, order: Seq<int>, cs: Seq<CommitView>) -> Seq<CommitView>
    decreases order.len(),
{
    if order.len() == 0 || t == Map::<Seq<char>, Seq<char>>::empty() {
        cs
    } else {
        let c = cs[order[0]];
        trace_from(next_traces(t, c.files), order.drop_first(), cs.update(order[0], trace_commit(t, c)))
    }
}

/// Commit `a` comes before commit `b`: it was committed later, or at the same
/// time and stands earlier.
pub open spec fn date_before(cs: Seq<CommitView>, a: int, b: int) -> bool {
    ||| cs[a].committer_date > cs[b].committer_date
    ||| (cs[a].committer_date == cs[b].committer_date && a < b)
}

/// `ord` lists the commits from the most recently committed to the oldest.
pub open spec fn is_date_order(cs: Seq<CommitView>, ord: Seq<int>) -> bool {
    &&& ord.len() == cs.len()
    &&& forall|k: int| 0 <= k < ord.len() ==> 0 <= #[trigger] ord[k] < cs.len()
    &&& forall|i: int, j: int| 0 <= i < j < ord.len() ==> date_before(cs, #[trigger] ord[i], #[trigger] ord[j])
}

pub open spec fn as_ints(v: Seq<usize>) -> Seq<int> {
    v.map_values(|k: usize| k as int)
}

fn date_order(entries: &Vec<CommitInfo>) -> (ord: Vec<usize>)
    ensures
        is_date_order(crate::git::commit_views(entries@), as_ints(ord@)),
{
    let ghost cs = crate::git::commit_views(entries@);
    let n = entries.len();
    let mut ord: Vec<usize> = Vec::new();
    let mut k: usize = 0;
    while k < n
        invariant
            k <= n,
            n == cs.len(),
            cs == crate::git::commit_views(entries@),
            ord@.len() == k,
            forall|t: int| 0 <= t < ord@.len() ==> #[trigger] ord@[t] < k,
            forall|a: int, b: int| 0 <= a < b < ord@.len() ==> date_before(cs, #[trigger] ord@[a] as int, #[trigger] ord@[b] as int),
        decreases n - k,
    {
        let mut pos: usize = 0;
        while pos < ord.len() && (entries[ord[pos]].committer_date > entries[k].committer_date
            || (entries[ord[pos]].committer_date == entries[k].committer_date && ord[pos] < k))
            invariant
                pos <= ord@.len(),
                k < n,
                n == cs.len(),
                cs == crate::git::commit_views(entries@),
                forall|t: int| 0 <= t < ord@.len() ==> #[trigger] ord@[t] < k,
                forall|t: int| 0 <= t < pos ==> date_before(cs, #[trigger] ord@[t] as int, k as int),
            decreases ord@.len() - pos,
        {
            pos = pos + 1;
        }
        let ghost old_ord = ord@;
        ord.insert(pos, k);
        assert forall|a: int, b: int| 0 <= a < b < ord@.len() implies date_before(cs, #[trigger] ord@[a] as int, #[trigger] ord@[b] as int) by {
            if b < pos {
                assert(date_before(cs, old_ord[a] as int, old_ord[b] as int));
            } else if b == pos {
                assert(date_before(cs, old_ord[a] as int, k as int));
            } else if a < pos {
                assert(date_before(cs, old_ord[a] as int, old_ord[b - 1] as int));
            } else if a == pos {
                assert(!date_before(cs, old_ord[pos as int] as int, k as int));
                assert(date_before(cs, k as int, old_ord[pos as int] as int));
                if b - 1 > pos {
                    assert(date_before(cs, old_ord[pos as int] as int, old_ord[b - 1] as int));
                }
            } else {
                assert(date_before(cs, old_ord[a - 1] as int, old_ord[b - 1] as int));
            }
        };
        k = k + 1;
    }
    ord
}


pub open spec fn file_views(v: Seq<CommitFileInfo>) -> Seq<FileChangeView> {
    v.map_values(|f: CommitFileInfo| f@)
}

fn clone_change(c: &ChangeType) -> (r: ChangeType)
    ensures
        r@ == c@,
{
    match c {
        ChangeType::Added => ChangeType::Added,
        ChangeType::Modified => ChangeType::Modified,
        ChangeType::Deleted => ChangeType::Deleted,
        ChangeType::Renamed(old) => ChangeType::Renamed(old.clone()),
    }
}

fn clone_opt_string(o: &Option<String>) -> (r: Option<String>)
    ensures
        crate::git::opt_view(r) == crate::git::opt_view(*o),
{
    match o {
        Some(s) => Some(s.clone()),
        None => None,
    }
}

/// The traces of the files of today: each name to itself.
fn start_traces(files: &[String]) -> (t: StrMap)
    ensures
        t.wf(),
        t.view() == initial_traces(files@.map_values(|f: String| f@)),
{
    let ghost fv = files@.map_values(|f: String| f@);
    let mut t = StrMap::new();
    let mut i: usize = 0;
    while i < files.len()
        invariant
            i <= files@.len(),
            fv == files@.map_values(|f: String| f@),
            t.wf(),
            t.view() == initial_traces(fv.take(i as int)),
        decreases files.len() - i,
    {
        let name = chars_of(files[i].as_str());
        let name2 = chars_of(files[i].as_str());
        t.insert(name, name2);
        let ghost pre = fv.take(i as int);
        let ghost post = fv.take(i + 1);
        assert(post =~= pre.push(fv[i as int]));
        assert forall|q: Seq<char>| #[trigger] post.contains(q) <==> (pre.contains(q) || q == fv[i as int]) by {
            if post.contains(q) {
                let m = choose|m: int| 0 <= m < post.len() && post[m] == q;
                if m < i {
                    assert(pre[m] == q);
                }
            }
            if pre.contains(q) {
                let m = choose|m: int| 0 <= m < pre.len() && pre[m] == q;
                assert(post[m] == q);
            }
            if q == fv[i as int] {
                assert(post[i as int] == q);
            }
        };
        assert(t.view() =~= initial_traces(post));
        i = i + 1;
    }
    assert(fv.take(files.len() as int) =~= fv);
    t
}

/// Traces one commit: looks up the recent name of each of its files, and
/// moves the traces on past its renames and additions.
#[verifier::spinoff_prover]
fn trace_one(t: &mut StrMap, c: &mut CommitInfo)
    requires
        old(t).wf(),
    ensures
        final(t).wf(),
        final(t).view() == next_traces(old(t).view(), old(c)@.files),
        final(c)@ == trace_commit(old(t).view(), old(c)@),
{
    let ghost tv = t.view();
    let ghost fs = old(c)@.files;
    let mut new_files: Vec<CommitFileInfo> = Vec::new();
    let mut left: Vec<Vec<char>> = Vec::new();
    let mut ins_keys: Vec<Vec<char>> = Vec::new();
    let mut ins_vals: Vec<Vec<char>> = Vec::new();
    let mut j: usize = 0;
    while j < c.files.len()
        invariant
            j <= c.files@.len(),
            t.wf(),
            t.view() == tv,
            c@ == old(c)@,
            fs == file_views(c.files@),
            file_views(new_files@) == fs.take(j as int).map_values(|f: FileChangeView| traced_file(tv, f)),
            crate::text::views(left@) == left_names(tv, fs.take(j as int)),
            ins_keys@.len() == ins_vals@.len(),
            ins_keys@.len() == rename_pairs(tv, fs.take(j as int)).len(),
            forall|q: int| 0 <= q < ins_keys@.len() ==> (#[trigger] ins_keys@[q])@ == rename_pairs(tv, fs.take(j as int))[q].0
                && ins_vals@[q]@ == rename_pairs(tv, fs.take(j as int))[q].1,
        decreases c.files.len() - j,
    {
        let f = &c.files[j];
        let ghost fv = f@;
        assert(fs[j as int] == fv);
        assert(fs.take(j + 1) =~= fs.take(j as int).push(fv));
        assert(fs.take(j + 1).drop_last() =~= fs.take(j as int));
        let ghost old_new = file_views(new_files@);
        let ghost old_left = crate::text::views(left@);
        let ghost old_pairs = rename_pairs(tv, fs.take(j as int));
        let ghost old_keys = ins_keys@;
        let ghost old_vals = ins_vals@;
        let name = chars_of(f.file_name.as_str());
        match t.find(&name) {
            Some(k) => {
                let recent = &t.vals[k];
                new_files.push(CommitFileInfo {
                    file_name: f.file_name.clone(),
                    change_type: clone_change(&f.change_type),
                    recent_file_name: Some(string_of(recent)),
                });
                match &f.change_type {
                    ChangeType::Renamed(old) => {
                        left.push(name);
                        ins_keys.push(chars_of(old.as_str()));
                        ins_vals.push(recent.clone());
                    },
                    ChangeType::Added => {
                        left.push(name);
                    },
                    _ => {},
                }
            },
            None => {
                new_files.push(CommitFileInfo {
                    file_name: f.file_name.clone(),
                    change_type: clone_change(&f.change_type),
                    recent_file_name: clone_opt_string(&f.recent_file_name),
                });
            },
        }
        proof {
            let new_pairs = rename_pairs(tv, fs.take(j + 1));
            if fv.change is Renamed && tv.contains_key(fv.file_name) {
                assert(new_pairs =~= old_pairs.push((fv.change->Renamed_0, tv[fv.file_name])));
                assert(ins_keys@.len() == old_keys.len() + 1);
            } else {
                assert(new_pairs =~= old_pairs);
                assert(ins_keys@ == old_keys);
                assert(ins_vals@ == old_vals);
            }
            assert forall|r: int| 0 <= r < ins_keys@.len() implies (#[trigger] ins_keys@[r])@ == new_pairs[r].0
                && ins_vals@[r]@ == new_pairs[r].1 by {
                if r < old_keys.len() {
                    assert(ins_keys@[r] == old_keys[r]);
                    assert(ins_vals@[r] == old_vals[r]);
                }
            };
        }
        assert(file_views(new_files@) =~= old_new.push(traced_file(tv, fv)));
        assert(fs.take(j + 1).map_values(|f: FileChangeView| traced_file(tv, f)) =~= fs.take(j as int).map_values(|f: FileChangeView| traced_file(tv, f)).push(traced_file(tv, fv)));
        assert(crate::text::views(left@) =~= left_names(tv, fs.take(j + 1)));
        j = j + 1;
    }
    assert(fs.take(c.files@.len() as int) =~= fs);
    let ghost names = crate::text::views(left@);
    let mut q: usize = 0;
    while q < left.len()
        invariant
            q <= left@.len(),
            names == crate::text::views(left@),
            t.wf(),
            t.view() == remove_all(tv, names.take(q as int)),
        decreases left.len() - q,
    {
        t.remove(&left[q]);
        assert(names.take(q + 1).drop_last() =~= names.take(q as int));
        q = q + 1;
    }
    assert(names.take(left.len() as int) =~= names);
    let ghost base = t.view();
    let ghost pairs = rename_pairs(tv, fs);
    let mut q: usize = 0;
    while q < ins_keys.len()
        invariant
            q <= ins_keys@.len(),
            ins_keys@.len() == ins_vals@.len(),
            ins_keys@.len() == pairs.len(),
            forall|r: int| 0 <= r < ins_keys@.len() ==> (#[trigger] ins_keys@[r])@ == pairs[r].0 && ins_vals@[r]@ == pairs[r].1,
            t.wf(),
            t.view() == insert_all(base, pairs.take(q as int)),
        decreases ins_keys.len() - q,
    {
        t.insert(ins_keys[q].clone(), ins_vals[q].clone());
        assert(pairs.take(q + 1).drop_last() =~= pairs.take(q as int));
        q = q + 1;
    }
    assert(pairs.take(ins_keys.len() as int) =~= pairs);
    let ghost nf = file_views(new_files@);
    c.files = new_files;
    assert(c@.files =~= nf);
    assert(c@ =~= trace_commit(tv, old(c)@));
}

/// Traces the files of today back through the history: the commits are
/// visited from the most recently committed on, and each file change of a
/// traced name gets the name that file has today. A rename carries the trace
/// on to the old name; an addition ends it.
pub fn assign_recent_names(files: &[String], commits: &mut CommitMap)
    requires
        old(commits).wf(),
    ensures
        final(commits).wf(),
        exists|ord: Seq<int>|
            is_date_order(old(commits)@, ord) && final(commits)@ == trace_from(
                initial_traces(files@.map_values(|f: String| f@)),
                ord,
                old(commits)@,
            ),
{
    let ghost cs0 = commits@;
    let ord = date_order(&commits.entries);
    let ghost ov = as_ints(ord@);
    let ghost t0 = initial_traces(files@.map_values(|f: String| f@));
    let mut traces = start_traces(files);
    let n = commits.entries.len();
    let mut k: usize = 0;
    assert(ov.skip(0) =~= ov);
    while k < n && !traces.is_empty()
        invariant
            k <= n,
            n == commits@.len(),
            is_date_order(cs0, ov),
            ov == as_ints(ord@),
            commits@.len() == cs0.len(),
            forall|a: int| 0 <= a < n ==> (#[trigger] commits@[a]).hash == cs0[a].hash,
            traces.wf(),
            trace_from(t0, ov, cs0) == trace_from(traces.view(), ov.skip(k as int), commits@),
        decreases n - k,
    {
        let ci = ord[k];
        assert(ov[k as int] == ci as int);
        let ghost tv = traces.view();
        let ghost before = commits@;
        assert(ov.skip(k as int)[0] == ci as int);
        assert(ov.skip(k as int).drop_first() =~= ov.skip(k + 1));
        trace_one(&mut traces, &mut commits.entries[ci]);
        assert(commits@ =~= before.update(ci as int, trace_commit(tv, before[ci as int])));
        k = k + 1;
    }
    assert(trace_from(traces.view(), ov.skip(k as int), commits@) == commits@);
    assert forall|a: int, b: int|
        0 <= a < commits@.len() && 0 <= b < commits@.len() && a != b implies #[trigger] commits@[a].hash
        != #[trigger] commits@[b].hash by {
        assert(commits@[a].hash == cs0[a].hash);
        assert(commits@[b].hash == cs0[b].hash);
    };
    assert(is_date_order(cs0, ov));
}


/// Every trace of `t` leads to one of the files `fs` of today.
pub open spec fn traces_lead_to(t: Map<Seq<char>, Seq<char>>, fs: Seq<Seq<char>>) -> bool {
    forall|k: Seq<char>| #[trigger] t.contains_key(k) ==> fs.contains(t[k])
}

/// Each file change of `b` has the recent name it has in `a`, or one of the files `fs`.
pub open spec fn recent_names_kept_or_current(a: Seq<CommitView>, b: Seq<CommitView>, fs: Seq<Seq<char>>) -> bool {
    &&& b.len() == a.len()
    &&& forall|k: int| 0 <= k < a.len() ==> (#[trigger] b[k]).files.len() == a[k].files.len()
    &&& forall|k: int, j: int|
        0 <= k < a.len() && 0 <= j < a[k].files.len() ==> (#[trigger] b[k].files[j]).recent == a[k].files[j].recent
            || (b[k].files[j].recent matches Some(n) && fs.contains(n))
}

proof fn lemma_remove_all_leads(t: Map<Seq<char>, Seq<char>>, names: Seq<Seq<char>>, fs: Seq<Seq<char>>)
    requires
        traces_lead_to(t, fs),
    ensures
        traces_lead_to(remove_all(t, names), fs),
    decreases names.len(),
{
    if names.len() > 0 {
        lemma_remove_all_leads(t, names.drop_last(), fs);
    }
}

proof fn lemma_rename_pairs_lead(t: Map<Seq<char>, Seq<char>>, files: Seq<FileChangeView>, fs: Seq<Seq<char>>)
    requires
        traces_lead_to(t, fs),
    ensures
        forall|q: int| 0 <= q < rename_pairs(t, files).len() ==> fs.contains(#[trigger] rename_pairs(t, files)[q].1),
    decreases files.len(),
{
    if files.len() > 0 {
        lemma_rename_pairs_lead(t, files.drop_last(), fs);
        let prev = rename_pairs(t, files.drop_last());
        let cur = rename_pairs(t, files);
        let f = files.last();
        assert forall|q: int| 0 <= q < cur.len() implies fs.contains(#[trigger] cur[q].1) by {
            if q < prev.len() {
                assert(cur[q] == prev[q]);
            } else {
                assert(t.contains_key(f.file_name));
                assert(cur[q].1 == t[f.file_name]);
            }
        };
    }
}

proof fn lemma_insert_all_leads(m: Map<Seq<char>, Seq<char>>, pairs: Seq<(Seq<char>, Seq<char>)>, fs: Seq<Seq<char>>)
    requires
        traces_lead_to(m, fs),
        forall|q: int| 0 <= q < pairs.len() ==> fs.contains(#[trigger] pairs[q].1),
    ensures
        traces_lead_to(insert_all(m, pairs), fs),
    decreases pairs.len(),
{
    if pairs.len() > 0 {
        assert forall|q: int| 0 <= q < pairs.drop_last().len() implies fs.contains(#[trigger] pairs.drop_last()[q].1) by {
            assert(pairs.drop_last()[q] == pairs[q]);
        };
        lemma_insert_all_leads(m, pairs.drop_last(), fs);
        assert(fs.contains(pairs[pairs.len() - 1].1));
    }
}

proof fn lemma_next_traces_lead(t: Map<Seq<char>, Seq<char>>, files: Seq<FileChangeView>, fs: Seq<Seq<char>>)
    requires
        traces_lead_to(t, fs),
    ensures
        traces_lead_to(next_traces(t, files), fs),
{
    lemma_remove_all_leads(t, left_names(t, files), fs);
    lemma_rename_pairs_lead(t, files, fs);
    lemma_insert_all_leads(remove_all(t, left_names(t, files)), rename_pairs(t, files), fs);
}

proof fn lemma_trace_from_recent(t: Map<Seq<char>, Seq<char>>, order: Seq<int>, cs: Seq<CommitView>, fs: Seq<Seq<char>>)
    requires
        traces_lead_to(t, fs),
        forall|k: int| 0 <= k < order.len() ==> 0 <= #[trigger] order[k] < cs.len(),
    ensures
        recent_names_kept_or_current(cs, trace_from(t, order, cs), fs),
    decreases order.len(),
{
    if order.len() == 0 || t == Map::<Seq<char>, Seq<char>>::empty() {
    } else {
        let c = cs[order[0]];
        let cs2 = cs.update(order[0], trace_commit(t, c));
        lemma_next_traces_lead(t, c.files, fs);
        let rest = order.drop_first();
        assert forall|k: int| 0 <= k < rest.len() implies 0 <= #[trigger] rest[k] < cs2.len() by {
            assert(rest[k] == order[k + 1]);
        };
        lemma_trace_from_recent(next_traces(t, c.files), rest, cs2, fs);
        let r = trace_from(t, order, cs);
        assert forall|k: int, j: int|
            0 <= k < cs.len() && 0 <= j < cs[k].files.len() implies (#[trigger] r[k].files[j]).recent == cs[k].files[j].recent
                || (r[k].files[j].recent matches Some(n) && fs.contains(n)) by {
            assert(cs2[k].files.len() == cs[k].files.len());
            if k == order[0] {
                let f = cs[k].files[j];
                assert(cs2[k].files[j] == traced_file(t, f));
                if t.contains_key(f.file_name) {
                    assert(fs.contains(t[f.file_name]));
                }
            }
        };
    }
}

/// Rename tracing names files only after files of today: every file change
/// keeps the recent name it had, or gets the name of one of today's `files`.
pub proof fn lemma_recent_names_are_current(files: Seq<Seq<char>>, order: Seq<int>, cs: Seq<CommitView>)
    requires
        is_date_order(cs, order),
    ensures
        recent_names_kept_or_current(cs, trace_from(initial_traces(files), order, cs), files),
{
    lemma_trace_from_recent(initial_traces(files), order, cs, files);
}


proof fn lemma_date_order_covers(cs: Seq<CommitView>, o: Seq<int>)
    requires
        is_date_order(cs, o),
    ensures
        o.to_set() == vstd::set_lib::set_int_range(0, cs.len() as int),
{
    assert forall|a: int, b: int| 0 <= a < o.len() && 0 <= b < o.len() && a != b implies o[a] != o[b] by {
        if a < b {
            assert(date_before(cs, o[a], o[b]));
        } else {
            assert(date_before(cs, o[b], o[a]));
        }
    };
    assert(o.no_duplicates());
    o.unique_seq_to_set();
    vstd::set_lib::lemma_int_range(0, cs.len() as int);
    vstd::seq_lib::seq_to_set_is_finite(o);
    assert(o.to_set().subset_of(vstd::set_lib::set_int_range(0, cs.len() as int)));
    vstd::set_lib::lemma_subset_equality(o.to_set(), vstd::set_lib::set_int_range(0, cs.len() as int));
}

proof fn lemma_date_sorted_unique(cs: Seq<CommitView>, a: Seq<int>, b: Seq<int>)
    requires
        forall|i: int, j: int| 0 <= i < j < a.len() ==> date_before(cs, #[trigger] a[i], #[trigger] a[j]),
        forall|i: int, j: int| 0 <= i < j < b.len() ==> date_before(cs, #[trigger] b[i], #[trigger] b[j]),
        a.to_set() == b.to_set(),
    ensures
        a == b,
    decreases a.len(),
{
    if a.len() == 0 {
        if b.len() > 0 {
            assert(b.to_set().contains(b[0]));
        }
        assert(a =~= b);
    } else {
        assert(a.to_set().contains(a[0]));
        assert(b.len() > 0);
        assert(b.to_set().contains(b[0]));
        let ia = choose|k: int| 0 <= k < a.len() && a[k] == b[0];
        let ib = choose|k: int| 0 <= k < b.len() && b[k] == a[0];
        if a[0] != b[0] {
            assert(ia > 0 && ib > 0);
            assert(date_before(cs, a[0], a[ia]));
            assert(date_before(cs, b[0], b[ib]));
        }
        let a1 = a.drop_first();
        let b1 = b.drop_first();
        assert forall|x: int| a1.to_set().contains(x) implies b1.to_set().contains(x) by {
            let k = choose|k: int| 0 <= k < a1.len() && a1[k] == x;
            assert(a.to_set().contains(a[k + 1]));
            let m = choose|m: int| 0 <= m < b.len() && b[m] == x;
            if m == 0 {
                assert(date_before(cs, a[0], a[k + 1]));
            }
            assert(b1[m - 1] == x);
        };
        assert forall|x: int| b1.to_set().contains(x) implies a1.to_set().contains(x) by {
            let k = choose|k: int| 0 <= k < b1.len() && b1[k] == x;
            assert(b.to_set().contains(b[k + 1]));
            let m = choose|m: int| 0 <= m < a.len() && a[m] == x;
            if m == 0 {
                assert(date_before(cs, b[0], b[k + 1]));
            }
            assert(a1[m - 1] == x);
        };
        assert(a1.to_set() =~= b1.to_set());
        lemma_date_sorted_unique(cs, a1, b1);
        assert(a =~= seq![a[0]] + a1);
        assert(b =~= seq![b[0]] + b1);
    }
}

/// The order in which rename tracing visits the commits is determined by the
/// commits alone: there is only one date order.
pub proof fn lemma_date_order_unique(cs: Seq<CommitView>, a: Seq<int>, b: Seq<int>)
    requires
        is_date_order(cs, a),
        is_date_order(cs, b),
    ensures
        a == b,
{
    lemma_date_order_covers(cs, a);
    lemma_date_order_covers(cs, b);
    lemma_date_sorted_unique(cs, a, b);
}


proof fn lemma_pairs_carry(m: Map<Seq<char>, Seq<char>>, t: Map<Seq<char>, Seq<char>>, fs: Seq<FileChangeView>, k: int)
    requires
        0 <= k < fs.len(),
        fs[k].change is Renamed,
        t.contains_key(fs[k].file_name),
        forall|j: int| 0 <= j < fs.len() && j != k ==> (#[trigger] fs[j]).change != fs[k].change,
    ensures
        insert_all(m, rename_pairs(t, fs)).contains_key(fs[k].change->Renamed_0),
        insert_all(m, rename_pairs(t, fs))[fs[k].change->Renamed_0] == t[fs[k].file_name],
    decreases fs.len(),
{
    let old = fs[k].change->Renamed_0;
    let fd = fs.drop_last();
    let prev = rename_pairs(t, fd);
    let f = fs.last();
    if k == fs.len() - 1 {
        let p = (old, t[f.file_name]);
        assert(rename_pairs(t, fs) == prev.push(p));
        assert(prev.push(p).drop_last() =~= prev);
        assert(prev.push(p).last() == p);
    } else {
        assert forall|j: int| 0 <= j < fd.len() && j != k implies (#[trigger] fd[j]).change != fd[k].change by {
            assert(fd[j] == fs[j]);
        };
        lemma_pairs_carry(m, t, fd, k);
        assert(f.change != fs[k].change);
        match f.change {
            ChangeKind::Renamed(o) => if t.contains_key(f.file_name) {
                let p = (o, t[f.file_name]);
                assert(o != old);
                assert(rename_pairs(t, fs) == prev.push(p));
                assert(prev.push(p).drop_last() =~= prev);
                assert(prev.push(p).last() == p);
            } else {
                assert(rename_pairs(t, fs) == prev);
            },
            _ => {
                assert(rename_pairs(t, fs) == prev);
            },
        }
    }
}

/// A rename of a traced name carries its trace on: where a commit renames the
/// traced name `n` from `old` (and no other change of it renames from `old`),
/// the traces after the commit lead `old` to where `n` led, whatever that was.
pub proof fn lemma_rename_carries_trace(t: Map<Seq<char>, Seq<char>>, fs: Seq<FileChangeView>, k: int)
    requires
        0 <= k < fs.len(),
        fs[k].change is Renamed,
        t.contains_key(fs[k].file_name),
        forall|j: int| 0 <= j < fs.len() && j != k ==> (#[trigger] fs[j]).change != fs[k].change,
    ensures
        next_traces(t, fs).contains_key(fs[k].change->Renamed_0),
        next_traces(t, fs)[fs[k].change->Renamed_0] == t[fs[k].file_name],
{
    lemma_pairs_carry(remove_all(t, left_names(t, fs)), t, fs, k);
}


proof fn lemma_trace_untouched(t: Map<Seq<char>, Seq<char>>, order: Seq<int>, cs: Seq<CommitView>, x: int)
    requires
        0 <= x < cs.len(),
        forall|i: int| 0 <= i < order.len() ==> 0 <= #[trigger] order[i] < cs.len() && order[i] != x,
    ensures
        trace_from(t, order, cs).len() == cs.len(),
        trace_from(t, order, cs)[x] == cs[x],
    decreases order.len(),
{
    if order.len() == 0 || t == Map::<Seq<char>, Seq<char>>::empty() {
    } else {
        let c = cs[order[0]];
        let cs1 = cs.update(order[0], trace_commit(t, c));
        assert forall|i: int| 0 <= i < order.drop_first().len() implies 0 <= #[trigger] order.drop_first()[i] < cs1.len()
            && order.drop_first()[i] != x by {
            assert(order.drop_first()[i] == order[i + 1]);
        };
        lemma_trace_untouched(next_traces(t, c.files), order.drop_first(), cs1, x);
    }
}

/// A change to the old name of a renamed traced file, in a commit traced
/// after the rename, gets the recent name the renamed file had: when the
/// commits at `order[0]` and then `order[1]` are traced from `t` (and neither
/// comes up again), a change of `old` in the second gets the name that the
/// renamed name traced to in `t`.
pub proof fn lemma_trace_through_rename(t: Map<Seq<char>, Seq<char>>, order: Seq<int>, cs: Seq<CommitView>, k: int, q: int)
    requires
        order.len() >= 2,
        forall|i: int| 0 <= i < order.len() ==> 0 <= #[trigger] order[i] < cs.len(),
        forall|i: int| 2 <= i < order.len() ==> #[trigger] order[i] != order[1],
        order[0] != order[1],
        0 <= k < cs[order[0]].files.len(),
        cs[order[0]].files[k].change is Renamed,
        t.contains_key(cs[order[0]].files[k].file_name),
        forall|j: int|
            0 <= j < cs[order[0]].files.len() && j != k ==> (#[trigger] cs[order[0]].files[j]).change
                != cs[order[0]].files[k].change,
        0 <= q < cs[order[1]].files.len(),
        cs[order[1]].files[q].file_name == cs[order[0]].files[k].change->Renamed_0,
    ensures
        trace_from(t, order, cs)[order[1]].files[q].recent == Some(t[cs[order[0]].files[k].file_name]),
{
    let c1 = cs[order[0]];
    let n = c1.files[k].file_name;
    let old = c1.files[k].change->Renamed_0;
    assert(t.contains_key(n));
    assert(t != Map::<Seq<char>, Seq<char>>::empty()) by {
        assert(!Map::<Seq<char>, Seq<char>>::empty().contains_key(n));
    };
    let t1 = next_traces(t, c1.files);
    lemma_rename_carries_trace(t, c1.files, k);
    let cs1 = cs.update(order[0], trace_commit(t, c1));
    let o1 = order.drop_first();
    assert(trace_from(t, order, cs) == trace_from(t1, o1, cs1));
    assert(t1 != Map::<Seq<char>, Seq<char>>::empty()) by {
        assert(!Map::<Seq<char>, Seq<char>>::empty().contains_key(old));
    };
    assert(o1[0] == order[1]);
    let c2 = cs1[order[1]];
    assert(c2 == cs[order[1]]);
    let t2 = next_traces(t1, c2.files);
    let cs2 = cs1.update(order[1], trace_commit(t1, c2));
    let o2 = o1.drop_first();
    assert(trace_from(t1, o1, cs1) == trace_from(t2, o2, cs2));
    assert(cs2[order[1]].files[q] == traced_file(t1, c2.files[q]));
    assert forall|i: int| 0 <= i < o2.len() implies 0 <= #[trigger] o2[i] < cs2.len() && o2[i] != order[1] by {
        assert(o2[i] == order[i + 2]);
    };
    lemma_trace_untouched(t2, o2, cs2, order[1]);
}

} // verus!
