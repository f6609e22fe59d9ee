//! Author alias merging: people whose names or e-mail addresses match, or
//! differ by one edit, are taken for one person.
use vstd::prelude::*;
use vstd::utf8::encode_utf8;
use crate::dsu::DisjointSet;
use crate::git::{main_author, AuthorInfo, AuthorView, CommitMap, CommitView, CommitInfo};
use crate::text::{
    chars_of, contains_seq, contains_vec, join_seq, join_vec, lemma_sorted_list, lemma_sorted_list_exists, sorted_list,
    sorted_unique, string_of, strictly_sorted, vec_eq, views,
};

verus! {

/// The least number of one-character insertions, deletions and substitutions
/// that turn `a` into `b`.
pub open spec fn edit_distance(a: Seq<char>, b: Seq<char>) -> nat
    decreases a.len() + b.len(),
{
    if a.len() == 0 {
        b.len()
    } else if b.len() == 0 {
        a.len()
    } else {
        let del = edit_distance(a.drop_last(), b) + 1;
        let ins = edit_distance(a, b.drop_last()) + 1;
        let sub = edit_distance(a.drop_last(), b.drop_last()) + (if a.last() == b.last() {
            0nat
        } else {
            1nat
        });
        if del <= ins && del <= sub {
            del
        } else if ins <= sub {
            ins
        } else {
            sub
        }
    }
}

/// `levenshtein::levenshtein`: the Levenshtein distance of `a` and `b`,
/// counted over their characters.
#[verifier::external_body]
fn levenshtein_distance(a: &str, b: &str) -> (d: usize)
    ensures
        d == edit_distance(a@, b@),
{
    levenshtein::levenshtein(a, b)
}

/// The length in bytes of the UTF-8 encoding of `s`, as `str::len` counts it.
pub open spec fn byte_len(s: Seq<char>) -> int {
    (encode_utf8(s).len() as usize) as int
}

/// The shortest text, in bytes, that counts as similar to another.
pub const MIN_SIZE: usize = 3;

/// The largest edit distance, and length difference in bytes, of two similar texts.
pub const MAX_DISTANCE: usize = 1;

/// Two texts are close: both at least `MIN_SIZE` bytes long, lengths at most
/// `MAX_DISTANCE` bytes apart, and at most `MAX_DISTANCE` edits apart.
pub open spec fn close_texts(a: Seq<char>, b: Seq<char>) -> bool {
    &&& byte_len(a) >= MIN_SIZE
    &&& byte_len(b) >= MIN_SIZE
    &&& byte_len(a) - byte_len(b) <= MAX_DISTANCE
    &&& byte_len(b) - byte_len(a) <= MAX_DISTANCE
    &&& edit_distance(a, b) <= MAX_DISTANCE
}

/// Two people are taken for one: the same non-empty name, the same non-empty
/// e-mail address, close names or close e-mail addresses.
pub open spec fn similar(a: AuthorView, b: AuthorView) -> bool {
    ||| (a.name.len() > 0 && a.name == b.name)
    ||| (a.email.len() > 0 && a.email == b.email)
    ||| close_texts(a.name, b.name)
    ||| close_texts(a.email, b.email)
}

fn close_strings(a: &String, b: &String) -> (r: bool)
    ensures
        r == close_texts(a@, b@),
{
    let la = a.as_str().len();
    let lb = b.as_str().len();
    if la < MIN_SIZE || lb < MIN_SIZE {
        return false;
    }
    let diff = if la >= lb { la - lb } else { lb - la };
    if diff > MAX_DISTANCE {
        return false;
    }
    levenshtein_distance(a.as_str(), b.as_str()) <= MAX_DISTANCE
}

/// Are `a` and `b` taken for one person?
pub fn is_similar(a: &AuthorInfo, b: &AuthorInfo) -> (r: bool)
    ensures
        r == similar(a@, b@),
{
    let exact_name = !a.name.as_str().is_empty() && a.name == b.name;
    if exact_name {
        return true;
    }
    let exact_email = !a.email.as_str().is_empty() && a.email == b.email;
    if exact_email {
        return true;
    }
    if close_strings(&a.name, &b.name) {
        return true;
    }
    close_strings(&a.email, &b.email)
}

/// `s` is kept from `inputs`: it is not empty, it is one of them, and no
/// other input holds it as a substring.
pub open spec fn is_kept(inputs: Seq<Seq<char>>, s: Seq<char>) -> bool {
    &&& s.len() > 0
    &&& inputs.contains(s)
    &&& forall|k: int|
        0 <= k < inputs.len() && #[trigger] inputs[k] != s ==> !contains_seq(inputs[k], s)
}

/// The texts kept from `inputs`, each once, in lexicographic order.
pub open spec fn reduced(inputs: Seq<Seq<char>>) -> Seq<Seq<char>> {
    sorted_list(Set::new(|s: Seq<char>| is_kept(inputs, s)))
}

pub open spec fn string_views(v: Seq<String>) -> Seq<Seq<char>> {
    v.map_values(|s: String| s@)
}

fn chars_of_all(v: &Vec<String>) -> (r: Vec<Vec<char>>)
    ensures
        views(r@) == string_views(v@),
{
    let mut r: Vec<Vec<char>> = Vec::new();
    let mut i: usize = 0;
    while i < v.len()
        invariant
            i <= v.len(),
            views(r@) == string_views(v@).take(i as int),
        decreases v.len() - i,
    {
        let ghost before = views(r@);
        let c = chars_of(v[i].as_str());
        assert(c@ == string_views(v@)[i as int]);
        r.push(c);
        assert(views(r@) =~= before.push(c@));
        assert(string_views(v@).take(i + 1) =~= string_views(v@).take(i as int).push(c@));
        i = i + 1;
    }
    assert(string_views(v@).take(v.len() as int) =~= string_views(v@));
    r
}

fn strings_of_all(v: &Vec<Vec<char>>) -> (r: Vec<String>)
    ensures
        string_views(r@) == views(v@),
{
    let mut r: Vec<String> = Vec::new();
    let mut i: usize = 0;
    while i < v.len()
        invariant
            i <= v.len(),
            string_views(r@) == views(v@).take(i as int),
        decreases v.len() - i,
    {
        let ghost before = string_views(r@);
        let c = string_of(&v[i]);
        assert(c@ == views(v@)[i as int]);
        r.push(c);
        assert(string_views(r@) =~= before.push(c@));
        assert(views(v@).take(i + 1) =~= views(v@).take(i as int).push(c@));
        i = i + 1;
    }
    assert(views(v@).take(v.len() as int) =~= views(v@));
    r
}

/// Drops the empty texts and those that another text holds, and sorts the rest.
pub fn reduce_overlapping_strings(inputs: &Vec<String>) -> (r: Vec<String>)
    ensures
        string_views(r@) == reduced(string_views(inputs@)),
        strictly_sorted(string_views(r@)),
        forall|s: Seq<char>|
            #[trigger] string_views(r@).contains(s) <==> is_kept(string_views(inputs@), s),
{
    let vs = chars_of_all(inputs);
    let ghost ins = string_views(inputs@);
    let ghost kept_set = Set::new(|s: Seq<char>| is_kept(ins, s));
    let mut cand: Vec<Vec<char>> = Vec::new();
    let mut i: usize = 0;
    while i < vs.len()
        invariant
            i <= vs.len(),
            views(vs@) == ins,
            kept_set == Set::new(|s: Seq<char>| is_kept(ins, s)),
            forall|y: Seq<char>|
                #[trigger] views(cand@).to_set().contains(y) <==> (kept_set.contains(y)
                    && ins.take(i as int).contains(y)),
        decreases vs.len() - i,
    {
        let s = &vs[i];
        let ghost sv = s@;
        assert(ins[i as int] == sv);
        let mut ok = s.len() > 0;
        if ok {
            let mut k: usize = 0;
            while ok && k < vs.len()
                invariant
                    k <= vs.len(),
                    views(vs@) == ins,
                    sv == s@,
                    ok ==> forall|j: int|
                        0 <= j < k && #[trigger] ins[j] != sv ==> !contains_seq(ins[j], sv),
                    !ok ==> k < ins.len() && ins[k as int] != sv && contains_seq(ins[k as int], sv),
                decreases vs.len() - k + (if ok { 1int } else { 0int }),
            {
                assert(ins[k as int] == vs@[k as int]@);
                if !vec_eq(&vs[k], s) && contains_vec(&vs[k], s) {
                    ok = false;
                } else {
                    k = k + 1;
                }
            }
        }
        let ghost before = views(cand@);
        assert(ins.take(i + 1) =~= ins.take(i as int).push(sv));
        if ok {
            assert(ins.contains(sv));
            assert(is_kept(ins, sv));
            cand.push(s.clone());
            assert(views(cand@) =~= before.push(sv));
        } else {
            assert(!is_kept(ins, sv));
        }
        assert forall|y: Seq<char>|
            #[trigger] views(cand@).to_set().contains(y) <==> (kept_set.contains(y) && ins.take(
                i + 1,
            ).contains(y)) by {
            let post = ins.take(i + 1);
            let pre = ins.take(i as int);
            if views(cand@).to_set().contains(y) {
                assert(views(cand@).contains(y));
                let k = choose|k: int| 0 <= k < views(cand@).len() && views(cand@)[k] == y;
                if ok && k == before.len() {
                    assert(post[i as int] == y);
                } else {
                    assert(before[k] == y);
                    assert(before.contains(y));
                    assert(before.to_set().contains(y));
                    let m = choose|m: int| 0 <= m < pre.len() && pre[m] == y;
                    assert(post[m] == y);
                }
                assert(post.contains(y));
            }
            if kept_set.contains(y) && post.contains(y) {
                let m = choose|m: int| 0 <= m < post.len() && post[m] == y;
                if m == i {
                    assert(ok);
                    assert(views(cand@)[before.len() as int] == y);
                } else {
                    assert(pre[m] == y);
                    assert(pre.contains(y));
                    assert(before.to_set().contains(y));
                    assert(before.contains(y));
                    let k = choose|k: int| 0 <= k < before.len() && before[k] == y;
                    assert(views(cand@)[k] == y);
                }
                assert(views(cand@).contains(y));
            }
        };
        i = i + 1;
    }
    assert(ins.take(vs.len() as int) =~= ins);
    let sorted = sorted_unique(&cand);
    let r = strings_of_all(&sorted);
    assert forall|y: Seq<char>| #[trigger] views(sorted@).to_set().contains(y) <==> kept_set.contains(y) by {
        if kept_set.contains(y) {
            assert(ins.contains(y));
        }
    };
    assert(views(sorted@).to_set() =~= kept_set);
    assert forall|y: Seq<char>| #[trigger] string_views(r@).contains(y) <==> is_kept(ins, y) by {
        assert(string_views(r@).contains(y) <==> views(sorted@).to_set().contains(y));
    };
    proof {
        lemma_sorted_list(kept_set, views(sorted@));
    }
    r
}

/// The separator between the merged names or addresses of one person.
pub open spec fn alias_sep() -> Seq<char> {
    seq![' ', '&', '&', ' ']
}

/// The one person that a cluster of aliases becomes: the names kept from the
/// cluster, joined by ` && `, and likewise the e-mail addresses.
pub open spec fn merged_author(members: Seq<AuthorView>) -> AuthorView {
    AuthorView {
        name: join_seq(reduced(members.map_values(|a: AuthorView| a.name)), alias_sep()),
        email: join_seq(reduced(members.map_values(|a: AuthorView| a.email)), alias_sep()),
    }
}

pub open spec fn author_views(v: Seq<&AuthorInfo>) -> Seq<AuthorView> {
    v.map_values(|a: &AuthorInfo| a@)
}

/// Merges a cluster of aliases into one person.
pub fn merge_author_cluster(cluster: &[&AuthorInfo]) -> (r: AuthorInfo)
    ensures
        r@ == merged_author(author_views(cluster@)),
{
    let ghost members = author_views(cluster@);
    let mut names: Vec<String> = Vec::new();
    let mut emails: Vec<String> = Vec::new();
    let mut i: usize = 0;
    while i < cluster.len()
        invariant
            i <= cluster@.len(),
            members == author_views(cluster@),
            string_views(names@) == members.take(i as int).map_values(|a: AuthorView| a.name),
            string_views(emails@) == members.take(i as int).map_values(|a: AuthorView| a.email),
        decreases cluster.len() - i,
    {
        let ghost bn = string_views(names@);
        let ghost be = string_views(emails@);
        let a: &AuthorInfo = cluster[i];
        assert(members[i as int] == a@);
        names.push(a.name.clone());
        emails.push(a.email.clone());
        assert(string_views(names@) =~= bn.push(a.name@));
        assert(string_views(emails@) =~= be.push(a.email@));
        assert(members.take(i + 1) =~= members.take(i as int).push(a@));
        assert(members.take(i + 1).map_values(|a: AuthorView| a.name) =~= members.take(
            i as int,
        ).map_values(|a: AuthorView| a.name).push(a.name@));
        assert(members.take(i + 1).map_values(|a: AuthorView| a.email) =~= members.take(
            i as int,
        ).map_values(|a: AuthorView| a.email).push(a.email@));
        i = i + 1;
    }
    assert(members.take(cluster.len() as int) =~= members);
    let unique_names = reduce_overlapping_strings(&names);
    let unique_emails = reduce_overlapping_strings(&emails);
    let sep: Vec<char> = vec![' ', '&', '&', ' '];
    assert(sep@ =~= alias_sep());
    let name_parts = chars_of_all(&unique_names);
    let email_parts = chars_of_all(&unique_emails);
    let name = join_vec(&name_parts, &sep);
    let email = join_vec(&email_parts, &sep);
    AuthorInfo { name: string_of(&name), email: string_of(&email) }
}


/// The distinct people that the commits are credited to, in the order in
/// which they first appear.
pub open spec fn distinct_authors(cs: Seq<CommitView>) -> Seq<AuthorView>
    decreases cs.len(),
{
    if cs.len() == 0 {
        Seq::empty()
    } else {
        let prev = distinct_authors(cs.drop_last());
        match main_author(cs.last()) {
            Some(a) => if prev.contains(a) {
                prev
            } else {
                prev.push(a)
            },
            None => prev,
        }
    }
}

/// People `i` and `j` of `us` are similar, the earlier one compared with the later.
pub open spec fn linked(us: Seq<AuthorView>, i: int, j: int) -> bool {
    &&& 0 <= i < us.len()
    &&& 0 <= j < us.len()
    &&& ((i < j && similar(us[i], us[j])) || (j < i && similar(us[j], us[i])))
}

/// `p` is a walk through `us` along similar people.
pub open spec fn is_walk(us: Seq<AuthorView>, p: Seq<int>) -> bool {
    &&& p.len() > 0
    &&& forall|k: int| 0 <= k < p.len() ==> 0 <= #[trigger] p[k] < us.len()
    &&& forall|k: int| 0 <= k < p.len() - 1 ==> linked(us, #[trigger] p[k], p[k + 1])
}

/// People `i` and `j` are one person: a walk along similar people joins them.
pub open spec fn connected(us: Seq<AuthorView>, i: int, j: int) -> bool {
    exists|p: Seq<int>| #[trigger] is_walk(us, p) && p[0] == i && p.last() == j
}

/// The positions below `n` of the people connected with `i`, in order.
pub open spec fn members_upto(us: Seq<AuthorView>, i: int, n: int) -> Seq<int>
    decreases n,
{
    if n <= 0 {
        Seq::empty()
    } else if connected(us, i, n - 1) {
        members_upto(us, i, n - 1).push(n - 1)
    } else {
        members_upto(us, i, n - 1)
    }
}

/// The people connected with person `i`, in order: the aliases of `i`.
pub open spec fn cluster_of(us: Seq<AuthorView>, i: int) -> Seq<AuthorView> {
    members_upto(us, i, us.len() as int).map_values(|k: int| us[k])
}

/// The one person that person `i` of `us` is merged into.
pub open spec fn alias_of(us: Seq<AuthorView>, i: int) -> AuthorView {
    merged_author(cluster_of(us, i))
}

/// The people that come first among their aliases: one for each person.
pub open spec fn first_aliases(us: Seq<AuthorView>) -> Set<int> {
    Set::new(|i: int| 0 <= i < us.len() && forall|j: int| 0 <= j < i ==> !connected(us, j, i))
}

/// The number of distinct persons among `us` once aliases are merged.
pub open spec fn person_count(us: Seq<AuthorView>) -> nat {
    first_aliases(us).len()
}

pub proof fn lemma_connected_refl(us: Seq<AuthorView>, i: int)
    requires
        0 <= i < us.len(),
    ensures
        connected(us, i, i),
{
    let p = seq![i];
    assert(is_walk(us, p));
}

pub proof fn lemma_connected_link(us: Seq<AuthorView>, i: int, j: int)
    requires
        linked(us, i, j),
    ensures
        connected(us, i, j),
{
    let p = seq![i, j];
    assert(is_walk(us, p));
}

pub proof fn lemma_connected_symmetric(us: Seq<AuthorView>, i: int, j: int)
    requires
        connected(us, i, j),
    ensures
        connected(us, j, i),
{
    let p = choose|p: Seq<int>| is_walk(us, p) && p[0] == i && p.last() == j;
    let q = p.reverse();
    assert forall|k: int| 0 <= k < q.len() - 1 implies linked(us, #[trigger] q[k], q[k + 1]) by {
        assert(linked(us, p[p.len() - 2 - k], p[p.len() - 1 - k]));
    };
    assert forall|k: int| 0 <= k < q.len() implies 0 <= #[trigger] q[k] < us.len() by {
        assert(0 <= p[p.len() - 1 - k] < us.len());
    };
    assert(is_walk(us, q));
}

pub proof fn lemma_connected_transitive(us: Seq<AuthorView>, i: int, j: int, k: int)
    requires
        connected(us, i, j),
        connected(us, j, k),
    ensures
        connected(us, i, k),
{
    let p = choose|p: Seq<int>| is_walk(us, p) && p[0] == i && p.last() == j;
    let q = choose|q: Seq<int>| is_walk(us, q) && q[0] == j && q.last() == k;
    let w = p + q.drop_first();
    assert forall|m: int| 0 <= m < w.len() implies 0 <= #[trigger] w[m] < us.len() by {
        if m < p.len() {
            assert(w[m] == p[m]);
        } else {
            assert(w[m] == q[m - p.len() + 1]);
        }
    };
    assert forall|m: int| 0 <= m < w.len() - 1 implies linked(us, #[trigger] w[m], w[m + 1]) by {
        if m < p.len() - 1 {
            assert(linked(us, p[m], p[m + 1]));
        } else if m == p.len() - 1 {
            assert(w[m] == q[0]);
            assert(linked(us, q[0], q[1]));
        } else {
            assert(linked(us, q[m - p.len() + 1], q[m - p.len() + 2]));
        }
    };
    if q.len() == 1 {
        assert(w =~= p);
    }
    assert(is_walk(us, w));
}

/// In a partition where every two similar people share a class, the ends
/// of a walk share a class.
proof fn lemma_walk_same(ds: &DisjointSet, us: Seq<AuthorView>, p: Seq<int>)
    requires
        ds.wf(),
        ds.size() == us.len(),
        is_walk(us, p),
        forall|a: int, b: int| #[trigger] linked(us, a, b) ==> ds.same(a, b),
    ensures
        ds.same(p[0], p.last()),
    decreases p.len(),
{
    if p.len() > 1 {
        let q = p.drop_last();
        assert forall|k: int| 0 <= k < q.len() - 1 implies linked(us, #[trigger] q[k], q[k + 1]) by {
            assert(linked(us, p[k], p[k + 1]));
        };
        assert forall|k: int| 0 <= k < q.len() implies 0 <= #[trigger] q[k] < us.len() by {
            assert(0 <= p[k] < us.len());
        };
        lemma_walk_same(ds, us, q);
        assert(linked(us, p[p.len() - 2], p[p.len() - 1]));
    }
}

/// The least position in the class of `x` is a first alias.
proof fn lemma_least_member(us: Seq<AuthorView>, x: int) -> (m: int)
    requires
        0 <= x < us.len(),
    ensures
        0 <= m <= x,
        connected(us, m, x),
        first_aliases(us).contains(m),
    decreases x,
{
    if exists|j: int| 0 <= j < x && connected(us, j, x) {
        let j = choose|j: int| 0 <= j < x && connected(us, j, x);
        let m = lemma_least_member(us, j);
        lemma_connected_transitive(us, m, j, x);
        m
    } else {
        lemma_connected_refl(us, x);
        x
    }
}

/// When the classes are exactly the aliases, there are as many roots as persons.
proof fn lemma_person_count(ds: &DisjointSet, us: Seq<AuthorView>)
    requires
        ds.wf(),
        ds.size() == us.len(),
        classes_are_aliases(ds.rep@, us),
    ensures
        person_count(us) == ds.root_set().len(),
{
    let l = first_aliases(us);
    let f = |i: int| ds.rep@[i];
    vstd::set_lib::lemma_int_range(0, us.len() as int);
    vstd::set_lib::lemma_len_subset(l, vstd::set_lib::set_int_range(0, us.len() as int));
    assert forall|a: int, b: int| l.contains(a) && l.contains(b) && #[trigger] f(a) == #[trigger] f(b) implies a == b by {
        if a < b {
            assert(connected(us, a, b));
        } else if b < a {
            assert(connected(us, b, a));
        }
    };
    assert forall|r: int| #[trigger] l.map(f).contains(r) <==> ds.root_set().contains(r) by {
        if l.map(f).contains(r) {
            let x = choose|x: int| l.contains(x) && f(x) == r;
            assert(ds.rep@[ds.rep@[x]] == ds.rep@[x]);
        }
        if ds.root_set().contains(r) {
            let m = lemma_least_member(us, r);
            assert(ds.rep@[m] == ds.rep@[r]);
            assert(l.contains(m) && f(m) == r);
        }
    };
    assert(l.map(f) =~= ds.root_set());
    vstd::set_lib::lemma_map_size(l, ds.root_set(), f);
}


/// The classes of `rep` are exactly the aliases among `us`.
pub open spec fn classes_are_aliases(rep: Seq<int>, us: Seq<AuthorView>) -> bool {
    forall|x: int, y: int|
        0 <= x < us.len() && 0 <= y < us.len() ==> (rep[x] == rep[y] <==> #[trigger] connected(us, x, y))
}

/// Every class of `rep` lies within one person's aliases.
pub open spec fn classes_within_aliases(rep: Seq<int>, us: Seq<AuthorView>) -> bool {
    forall|x: int, y: int|
        0 <= x < us.len() && 0 <= y < us.len() && rep[x] == rep[y] ==> #[trigger] connected(us, x, y)
}

/// Every two similar people, the earlier below `i`, share a class of `rep`.
pub open spec fn similar_joined_below(rep: Seq<int>, us: Seq<AuthorView>, i: int) -> bool {
    forall|a: int, b: int|
        0 <= a < i && a < b < us.len() && similar(#[trigger] us[a], #[trigger] us[b]) ==> rep[a] == rep[b]
}

/// The positions below `m` whose class is led by `r`, in order.
pub open spec fn class_upto(rep: Seq<int>, r: int, m: int) -> Seq<int>
    decreases m,
{
    if m <= 0 {
        Seq::empty()
    } else if rep[m - 1] == r {
        class_upto(rep, r, m - 1).push(m - 1)
    } else {
        class_upto(rep, r, m - 1)
    }
}

proof fn lemma_members_class(ds: &DisjointSet, us: Seq<AuthorView>, x: int, m: int)
    requires
        ds.wf(),
        ds.size() == us.len(),
        0 <= x < us.len(),
        0 <= m <= us.len(),
        classes_are_aliases(ds.rep@, us),
    ensures
        members_upto(us, x, m) == class_upto(ds.rep@, ds.rep@[x], m),
    decreases m,
{
    if m > 0 {
        lemma_members_class(ds, us, x, m - 1);
        assert(ds.rep@[x] == ds.rep@[m - 1] <==> connected(us, x, m - 1));
    }
}

proof fn lemma_class_bounds(rep: Seq<int>, r: int, m: int)
    requires
        0 <= m,
    ensures
        forall|t: int| 0 <= t < class_upto(rep, r, m).len() ==> 0 <= #[trigger] class_upto(rep, r, m)[t] < m,
    decreases m,
{
    if m > 0 {
        lemma_class_bounds(rep, r, m - 1);
        let c = class_upto(rep, r, m);
        let p = class_upto(rep, r, m - 1);
        assert forall|t: int| 0 <= t < c.len() implies 0 <= #[trigger] c[t] < m by {
            if t < p.len() {
                assert(c[t] == p[t]);
            }
        };
    }
}

pub open spec fn authors_view(v: Seq<AuthorInfo>) -> Seq<AuthorView> {
    v.map_values(|a: AuthorInfo| a@)
}

fn clone_author(a: &AuthorInfo) -> (r: AuthorInfo)
    ensures
        r == *a,
        r@ == a@,
{
    AuthorInfo { name: a.name.clone(), email: a.email.clone() }
}

fn same_author(a: &AuthorInfo, b: &AuthorInfo) -> (r: bool)
    ensures
        r == (a@ == b@),
{
    a.name == b.name && a.email == b.email
}

fn position_of_author(v: &Vec<AuthorInfo>, a: &AuthorInfo) -> (r: Option<usize>)
    ensures
        match r {
            Some(k) => k < v.len() && v@[k as int]@ == a@,
            None => !authors_view(v@).contains(a@),
        },
{
    let ghost av = authors_view(v@);
    let mut k: usize = 0;
    while k < v.len()
        invariant
            k <= v.len(),
            av == authors_view(v@),
            forall|j: int| 0 <= j < k ==> av[j] != a@,
        decreases v.len() - k,
    {
        if same_author(&v[k], a) {
            return Some(k);
        }
        k = k + 1;
    }
    None
}

fn distinct_main_authors(entries: &Vec<CommitInfo>) -> (r: Vec<AuthorInfo>)
    ensures
        authors_view(r@) == distinct_authors(crate::git::commit_views(entries@)),
{
    let ghost cs = crate::git::commit_views(entries@);
    let mut unique: Vec<AuthorInfo> = Vec::new();
    let mut c: usize = 0;
    assert(authors_view(unique@) =~= distinct_authors(cs.take(0)));
    while c < entries.len()
        invariant
            c <= entries.len(),
            cs == crate::git::commit_views(entries@),
            authors_view(unique@) == distinct_authors(cs.take(c as int)),
        decreases entries.len() - c,
    {
        assert(cs.take(c + 1).drop_last() =~= cs.take(c as int));
        assert(cs.take(c + 1).last() == entries@[c as int]@);
        let ghost prev = authors_view(unique@);
        match entries[c].get_main_author() {
            Some(a) => {
                assert(main_author(entries@[c as int]@) == Some(a@));
                match position_of_author(&unique, a) {
                    Some(k) => {
                        assert(prev[k as int] == a@);
                        assert(prev.contains(a@));
                    },
                    None => {
                        unique.push(clone_author(a));
                        assert(authors_view(unique@) =~= prev.push(a@));
                    },
                }
            },
            None => {
                assert(main_author(entries@[c as int]@) is None);
            },
        }
        c = c + 1;
    }
    assert(cs.take(entries.len() as int) =~= cs);
    unique
}

/// Merges the classes of the similar people `i` and `j`, `i` the earlier.
fn union_aliases(ds: &mut DisjointSet, i: usize, j: usize, Ghost(us): Ghost<Seq<AuthorView>>) -> (merged: bool)
    requires
        old(ds).wf(),
        old(ds).size() == us.len(),
        i < j < us.len(),
        similar(us[i as int], us[j as int]),
        classes_within_aliases(old(ds).rep@, us),
    ensures
        final(ds).wf(),
        final(ds).size() == us.len(),
        classes_within_aliases(final(ds).rep@, us),
        final(ds).root_set().len() + (if merged { 1int } else { 0int }) == old(ds).root_set().len(),
        final(ds).rep@[i as int] == final(ds).rep@[j as int],
        forall|x: int, y: int|
            0 <= x < us.len() && 0 <= y < us.len() && old(ds).rep@[x] == old(ds).rep@[y] ==> #[trigger] final(ds).rep@[x] == #[trigger] final(ds).rep@[y],
{
    let ghost old_ds = *ds;
    let ghost n = us.len();
    assert(linked(us, i as int, j as int));
    let merged = ds.union(i, j);
    assert forall|x: int, y: int|
        0 <= x < n && 0 <= y < n && ds.rep@[x] == ds.rep@[y] implies #[trigger] connected(us, x, y) by {
        assert(ds.same(x, y));
        assert(old_ds.joined(i as int, j as int, x, y));
        lemma_connected_link(us, i as int, j as int);
        lemma_connected_symmetric(us, i as int, j as int);
        if old_ds.same(x, y) {
        } else if old_ds.same(x, i as int) && old_ds.same(y, j as int) {
            assert(connected(us, x, i as int));
            assert(connected(us, j as int, y));
            lemma_connected_transitive(us, x, i as int, j as int);
            lemma_connected_transitive(us, x, j as int, y);
        } else {
            assert(connected(us, x, j as int));
            assert(connected(us, i as int, y));
            lemma_connected_transitive(us, x, j as int, i as int);
            lemma_connected_transitive(us, x, i as int, y);
        }
    };
    assert(ds.same(i as int, j as int)) by {
        assert(old_ds.joined(i as int, j as int, i as int, j as int));
    };
    assert forall|x: int, y: int|
        0 <= x < us.len() && 0 <= y < us.len() && old_ds.rep@[x] == old_ds.rep@[y] implies #[trigger] ds.rep@[x] == #[trigger] ds.rep@[y] by {
        assert(old_ds.joined(i as int, j as int, x, y));
        assert(ds.same(x, y));
    };
    merged
}

/// The name of `a`, or its e-mail address when `by_email`.
pub open spec fn key_of(a: AuthorView, by_email: bool) -> Seq<char> {
    if by_email {
        a.email
    } else {
        a.name
    }
}

/// Joins the class of each person with that of the first earlier person with
/// the same non-empty name (or e-mail address, when `by_email`); gives the
/// number of classes that were joined. Afterwards all people with the same
/// non-empty key are in one class, and no two classes were split.
fn join_equal_keys(ds: &mut DisjointSet, unique: &Vec<AuthorInfo>, by_email: bool, Ghost(us): Ghost<Seq<AuthorView>>) -> (count: usize)
    requires
        old(ds).wf(),
        old(ds).size() == us.len(),
        us == authors_view(unique@),
        classes_within_aliases(old(ds).rep@, us),
    ensures
        final(ds).wf(),
        final(ds).size() == us.len(),
        classes_within_aliases(final(ds).rep@, us),
        final(ds).root_set().len() + count == old(ds).root_set().len(),
        forall|x: int, y: int|
            0 <= x < us.len() && 0 <= y < us.len() && key_of(us[x], by_email).len() > 0 && key_of(us[x], by_email)
                == key_of(us[y], by_email) ==> #[trigger] final(ds).rep@[x] == #[trigger] final(ds).rep@[y],
        forall|x: int, y: int|
            0 <= x < us.len() && 0 <= y < us.len() && old(ds).rep@[x] == old(ds).rep@[y] ==> #[trigger] final(ds).rep@[x]
                == #[trigger] final(ds).rep@[y],
{
    let n = unique.len();
    let mut count: usize = 0;
    let mut i: usize = 0;
    proof {
        ds.lemma_root_set_finite();
    }
    while i < n
        invariant
            i <= n,
            n == us.len(),
            us == authors_view(unique@),
            ds.wf(),
            ds.size() == n,
            ds.root_set().len() + count == old(ds).root_set().len(),
            old(ds).root_set().len() <= n,
            classes_within_aliases(ds.rep@, us),
            forall|x: int, y: int|
                0 <= x < i && 0 <= y < i && key_of(us[x], by_email).len() > 0 && key_of(us[x], by_email)
                    == key_of(us[y], by_email) ==> #[trigger] ds.rep@[x] == #[trigger] ds.rep@[y],
            forall|x: int, y: int|
                0 <= x < n && 0 <= y < n && old(ds).rep@[x] == old(ds).rep@[y] ==> #[trigger] ds.rep@[x]
                    == #[trigger] ds.rep@[y],
        decreases n - i,
    {
        let key: &String = if by_email { &unique[i].email } else { &unique[i].name };
        assert(key@ == key_of(us[i as int], by_email));
        let ghost before = ds.rep@;
        if !key.as_str().is_empty() {
            let mut j: usize = 0;
            while j < i
                invariant
                    j <= i,
                    i < n,
                    n == us.len(),
                    us == authors_view(unique@),
                    key@ == key_of(us[i as int], by_email),
                    forall|k: int| 0 <= k < j ==> key_of(#[trigger] us[k], by_email) != key@,
                ensures
                    j <= i,
                    forall|k: int| 0 <= k < j ==> key_of(#[trigger] us[k], by_email) != key@,
                    j < i ==> key_of(us[j as int], by_email) == key@,
                decreases i - j,
            {
                let other: &String = if by_email { &unique[j].email } else { &unique[j].name };
                assert(other@ == key_of(us[j as int], by_email));
                if *other == *key {
                    break;
                }
                j = j + 1;
            }
            if j < i {
                let other: &String = if by_email { &unique[j].email } else { &unique[j].name };
                assert(other@ == key_of(us[j as int], by_email));
                if *other == *key {
                    assert(similar(us[j as int], us[i as int]));
                    if union_aliases(ds, j, i, Ghost(us)) {
                        assert(count < n);
                        count = count + 1;
                    }
                    assert forall|x: int, y: int|
                        0 <= x < i + 1 && 0 <= y < i + 1 && key_of(us[x], by_email).len() > 0 && key_of(us[x], by_email)
                            == key_of(us[y], by_email) implies #[trigger] ds.rep@[x] == #[trigger] ds.rep@[y] by {
                        if x < i && y < i {
                            assert(before[x] == before[y]);
                        } else if x < i {
                            assert(before[x] == before[j as int]);
                            assert(ds.rep@[x] == ds.rep@[j as int]);
                        } else if y < i {
                            assert(before[y] == before[j as int]);
                            assert(ds.rep@[y] == ds.rep@[j as int]);
                        }
                    };
                }
            } else {
                assert forall|x: int, y: int|
                    0 <= x < i + 1 && 0 <= y < i + 1 && key_of(us[x], by_email).len() > 0 && key_of(us[x], by_email)
                        == key_of(us[y], by_email) implies #[trigger] ds.rep@[x] == #[trigger] ds.rep@[y] by {
                    if x < i && y == i {
                        assert(key_of(us[x], by_email) != key@);
                    } else if y < i && x == i {
                        assert(key_of(us[y], by_email) != key@);
                    }
                };
            }
        } else {
            assert forall|x: int, y: int|
                0 <= x < i + 1 && 0 <= y < i + 1 && key_of(us[x], by_email).len() > 0 && key_of(us[x], by_email)
                    == key_of(us[y], by_email) implies #[trigger] ds.rep@[x] == #[trigger] ds.rep@[y] by {
                if x < i && y == i {
                    assert(key_of(us[y], by_email).len() == 0);
                } else if y < i && x == i {
                    assert(key_of(us[x], by_email).len() == 0);
                }
            };
        }
        i = i + 1;
    }
    count
}

/// Finds the distinct people the commits are credited to and merges the
/// aliases among them. Gives each person with the one it is merged into, the
/// number of merges, and the number of persons that remain.
pub fn find_unique_authors(commits: &CommitMap) -> (r: (Vec<(AuthorInfo, AuthorInfo)>, usize, usize))
    ensures
        r.0@.len() == distinct_authors(commits@).len(),
        forall|k: int|
            0 <= k < r.0@.len() ==> (#[trigger] r.0@[k]).0@ == distinct_authors(commits@)[k]
                && r.0@[k].1@ == alias_of(distinct_authors(commits@), k),
        r.1 == distinct_authors(commits@).len() - person_count(distinct_authors(commits@)),
        r.2 == person_count(distinct_authors(commits@)),
{
    let unique = distinct_main_authors(commits.values());
    let ghost us = authors_view(unique@);
    let n = unique.len();
    let mut ds = DisjointSet::new(n);
    let mut mergers: usize = 0;
    assert forall|x: int, y: int|
        0 <= x < n && 0 <= y < n && ds.rep@[x] == ds.rep@[y] implies #[trigger] connected(us, x, y) by {
        assert(x == y);
        lemma_connected_refl(us, x);
    };
    // People with the same name, then those with the same e-mail address.
    let m1 = join_equal_keys(&mut ds, &unique, false, Ghost(us));
    mergers = mergers + m1;
    let m2 = join_equal_keys(&mut ds, &unique, true, Ghost(us));
    mergers = mergers + m2;
    // Every other pair of similar people.
    let mut i: usize = 0;
    while i < n
        invariant
            i <= n,
            n == us.len(),
            us == authors_view(unique@),
            ds.wf(),
            ds.size() == n,
            mergers + ds.root_set().len() == n,
            classes_within_aliases(ds.rep@, us),
            similar_joined_below(ds.rep@, us, i as int),
        decreases n - i,
    {
        let mut j: usize = i + 1;
        while j < n
            invariant
                i < n,
                i + 1 <= j <= n,
                n == us.len(),
                us == authors_view(unique@),
                ds.wf(),
                ds.size() == n,
                mergers + ds.root_set().len() == n,
                classes_within_aliases(ds.rep@, us),
                similar_joined_below(ds.rep@, us, i as int),
                forall|b: int| i < b < j && similar(us[i as int], #[trigger] us[b]) ==> ds.rep@[i as int] == ds.rep@[b],
            decreases n - j,
        {
            let ri = ds.find(i);
            let rj = ds.find(j);
            if ri != rj {
                if is_similar(&unique[i], &unique[j]) {
                    let ghost old_ds = ds;
                    if union_aliases(&mut ds, i, j, Ghost(us)) {
                        mergers = mergers + 1;
                    }
                    assert forall|a: int, b: int|
                        0 <= a < i && a < b < n && similar(#[trigger] us[a], #[trigger] us[b]) implies ds.rep@[a] == ds.rep@[b] by {
                        assert(old_ds.rep@[a] == old_ds.rep@[b]);
                    };
                    assert forall|b: int| i < b <= j && similar(us[i as int], #[trigger] us[b]) implies ds.rep@[i as int] == ds.rep@[b] by {
                        if b < j {
                            assert(old_ds.rep@[i as int] == old_ds.rep@[b]);
                        }
                    };
                }
            }
            j = j + 1;
        }
        assert forall|a: int, b: int|
            0 <= a < i + 1 && a < b < us.len() && similar(#[trigger] us[a], #[trigger] us[b]) implies ds.rep@[a] == ds.rep@[b] by {
            if a == i {
                assert(similar(us[i as int], us[b]));
            }
        };
        i = i + 1;
    }
    assert forall|a: int, b: int| #[trigger] linked(us, a, b) implies ds.same(a, b) by {
        if a < b {
            assert(similar(us[a], us[b]));
        } else {
            assert(similar(us[b], us[a]));
        }
    };
    assert forall|x: int, y: int|
        0 <= x < us.len() && 0 <= y < us.len() implies (ds.rep@[x] == ds.rep@[y] <==> #[trigger] connected(us, x, y)) by {
        if connected(us, x, y) {
            let p = choose|p: Seq<int>| #[trigger] is_walk(us, p) && p[0] == x && p.last() == y;
            lemma_walk_same(&ds, us, p);
        }
    };
    let ghost rep = ds.rep@;
    assert(classes_are_aliases(rep, us));
    proof {
        lemma_person_count(&ds, us);
    }
    // The members of each class, in order.
    let mut clusters: Vec<Vec<usize>> = Vec::new();
    let mut r: usize = 0;
    while r < n
        invariant
            r <= n,
            clusters@.len() == r,
            forall|t: int| 0 <= t < r ==> (#[trigger] clusters@[t])@.len() == 0,
        decreases n - r,
    {
        clusters.push(Vec::new());
        r = r + 1;
    }
    let mut i: usize = 0;
    assert forall|t: int| 0 <= t < n implies (#[trigger] clusters@[t])@.map_values(|k: usize| k as int) =~= class_upto(rep, t, 0) by {};
    while i < n
        invariant
            i <= n,
            n == us.len(),
            ds.wf(),
            ds.size() == n,
            ds.rep@ == rep,
            clusters@.len() == n,
            forall|t: int| 0 <= t < n ==> (#[trigger] clusters@[t])@.map_values(|k: usize| k as int)
                == class_upto(rep, t, i as int),
        decreases n - i,
    {
        let root = ds.find(i);
        let ghost before = clusters@;
        clusters[root].push(i);
        assert forall|t: int| 0 <= t < n implies (#[trigger] clusters@[t])@.map_values(|k: usize| k as int)
            == class_upto(rep, t, i + 1) by {
            if t == root {
                assert(clusters@[t]@.map_values(|k: usize| k as int) =~= before[t]@.map_values(|k: usize| k as int).push(i as int));
            } else {
                assert(clusters@[t] == before[t]);
            }
        };
        i = i + 1;
    }
    // The person each class is merged into.
    let mut merged_by_root: Vec<AuthorInfo> = Vec::new();
    let mut r: usize = 0;
    while r < n
        invariant
            r <= n,
            n == us.len(),
            us == authors_view(unique@),
            ds.wf(),
            ds.size() == n,
            ds.rep@ == rep,
            clusters@.len() == n,
            forall|t: int| 0 <= t < n ==> (#[trigger] clusters@[t])@.map_values(|k: usize| k as int)
                == class_upto(rep, t, n as int),
            merged_by_root@.len() == r,
            forall|t: int| 0 <= t < r ==> (#[trigger] merged_by_root@[t])@ == merged_author(
                class_upto(rep, t, n as int).map_values(|k: int| us[k])),
        decreases n - r,
    {
        let members = &clusters[r];
        let ghost cls = class_upto(rep, r as int, n as int);
        assert(members@.map_values(|k: usize| k as int) == cls);
        proof {
            lemma_class_bounds(rep, r as int, n as int);
        }
        let mut refs: Vec<&AuthorInfo> = Vec::new();
        let mut t: usize = 0;
        while t < members.len()
            invariant
                t <= members@.len(),
                n == us.len(),
                us == authors_view(unique@),
                n == unique@.len(),
                members@.map_values(|k: usize| k as int) == cls,
                forall|q: int| 0 <= q < cls.len() ==> 0 <= #[trigger] cls[q] < n,
                author_views(refs@) == cls.take(t as int).map_values(|k: int| us[k]),
            decreases members.len() - t,
        {
            let ghost bv = author_views(refs@);
            let k = members[t];
            assert(cls[t as int] == k as int);
            refs.push(&unique[k]);
            assert(author_views(refs@) =~= bv.push(us[k as int]));
            assert(cls.take(t + 1) =~= cls.take(t as int).push(k as int));
            assert(cls.take(t + 1).map_values(|k: int| us[k]) =~= cls.take(t as int).map_values(|k: int| us[k]).push(us[k as int]));
            t = t + 1;
        }
        assert(cls.take(members.len() as int) =~= cls);
        let m = merge_author_cluster(refs.as_slice());
        merged_by_root.push(m);
        r = r + 1;
    }
    // Each person with the one it becomes.
    let mut pairs: Vec<(AuthorInfo, AuthorInfo)> = Vec::new();
    let mut k: usize = 0;
    while k < n
        invariant
            k <= n,
            n == us.len(),
            us == authors_view(unique@),
            ds.wf(),
            ds.size() == n,
            ds.rep@ == rep,
            merged_by_root@.len() == n,
            forall|t: int| 0 <= t < n ==> (#[trigger] merged_by_root@[t])@ == merged_author(
                class_upto(rep, t, n as int).map_values(|k: int| us[k])),
            classes_are_aliases(rep, us),
            pairs@.len() == k,
            forall|q: int| 0 <= q < k ==> (#[trigger] pairs@[q]).0@ == us[q] && pairs@[q].1@ == alias_of(us, q),
        decreases n - k,
    {
        let root = ds.find(k);
        proof {
            lemma_members_class(&ds, us, k as int, n as int);
        }
        assert(alias_of(us, k as int) == merged_by_root@[root as int]@);
        pairs.push((clone_author(&unique[k]), clone_author(&merged_by_root[root])));
        k = k + 1;
    }
    let persons = n - mergers;
    (pairs, mergers, persons)
}


/// Each person credited in `cs` appears once in `distinct_authors(cs)`.
pub proof fn lemma_distinct_authors(cs: Seq<CommitView>)
    ensures
        distinct_authors(cs).no_duplicates(),
        forall|k: int|
            0 <= k < cs.len() && #[trigger] main_author(cs[k]) is Some ==> distinct_authors(
                cs,
            ).contains(main_author(cs[k])->0),
    decreases cs.len(),
{
    if cs.len() > 0 {
        let pre = cs.drop_last();
        lemma_distinct_authors(pre);
        let prev = distinct_authors(pre);
        let cur = distinct_authors(cs);
        assert forall|k: int|
            0 <= k < cs.len() && #[trigger] main_author(cs[k]) is Some implies cur.contains(main_author(cs[k])->0) by {
            let a = main_author(cs[k])->0;
            if k < cs.len() - 1 {
                assert(main_author(pre[k]) is Some);
                assert(prev.contains(a));
                let m = choose|m: int| 0 <= m < prev.len() && prev[m] == a;
                assert(cur[m] == a);
            } else {
                if !prev.contains(a) {
                    assert(cur[prev.len() as int] == a);
                }
            }
        };
    }
}

/// The one person that `a`, a person of `us`, is merged into.
pub open spec fn alias_for(us: Seq<AuthorView>, a: AuthorView) -> AuthorView {
    alias_of(us, us.index_of(a))
}

/// A commit once its main author is replaced by the person it is merged into.
pub open spec fn with_merged_author(us: Seq<AuthorView>, c: CommitView) -> CommitView {
    match main_author(c) {
        Some(a) => CommitView { author: alias_for(us, a), ..c },
        None => c,
    }
}

fn lookup_alias(pairs: &Vec<(AuthorInfo, AuthorInfo)>, a: &AuthorInfo) -> (r: Option<usize>)
    ensures
        match r {
            Some(q) => q < pairs@.len() && pairs@[q as int].0@ == a@,
            None => forall|q: int| 0 <= q < pairs@.len() ==> (#[trigger] pairs@[q]).0@ != a@,
        },
{
    let mut q: usize = 0;
    while q < pairs.len()
        invariant
            q <= pairs@.len(),
            forall|t: int| 0 <= t < q ==> (#[trigger] pairs@[t]).0@ != a@,
        decreases pairs.len() - q,
    {
        if same_author(&pairs[q].0, a) {
            return Some(q);
        }
        q = q + 1;
    }
    None
}

/// Merges author aliases: the main author of each commit becomes the one
/// person its aliases are merged into. Gives the number of merges and the
/// number of persons that remain.
pub fn merge_alias_authors(commits: &mut CommitMap) -> (r: (usize, usize))
    requires
        old(commits).wf(),
    ensures
        final(commits).wf(),
        final(commits)@.len() == old(commits)@.len(),
        forall|k: int|
            0 <= k < old(commits)@.len() ==> #[trigger] final(commits)@[k] == with_merged_author(
                distinct_authors(old(commits)@),
                old(commits)@[k],
            ),
        r.0 == distinct_authors(old(commits)@).len() - person_count(distinct_authors(old(commits)@)),
        r.1 == person_count(distinct_authors(old(commits)@)),
{
    let (pairs, mergers, authors) = find_unique_authors(commits);
    let ghost cs = commits@;
    let ghost us = distinct_authors(cs);
    proof {
        lemma_distinct_authors(cs);
    }
    let mut k: usize = 0;
    while k < commits.entries.len()
        invariant
            k <= commits@.len(),
            commits@.len() == cs.len(),
            us == distinct_authors(cs),
            us.no_duplicates(),
            forall|t: int|
                0 <= t < cs.len() && #[trigger] main_author(cs[t]) is Some ==> us.contains(main_author(cs[t])->0),
            pairs@.len() == us.len(),
            forall|q: int|
                0 <= q < pairs@.len() ==> (#[trigger] pairs@[q]).0@ == us[q] && pairs@[q].1@ == alias_of(us, q),
            forall|t: int| 0 <= t < k ==> #[trigger] commits@[t] == with_merged_author(us, cs[t]),
            forall|t: int| k <= t < cs.len() ==> #[trigger] commits@[t] == cs[t],
        decreases cs.len() - k,
    {
        let ghost c = cs[k as int];
        assert(commits@[k as int] == c);
        let new_author: Option<AuthorInfo> = match commits.entries[k].get_main_author() {
            Some(a) => {
                assert(main_author(c) == Some(a@));
                match lookup_alias(&pairs, a) {
                    Some(q) => {
                        assert(us[q as int] == a@);
                        assert(us.index_of(a@) == q) by {
                            assert(us.contains(a@));
                        };
                        Some(clone_author(&pairs[q].1))
                    },
                    None => {
                        proof {
                            assert(us.contains(a@));
                            let m = choose|m: int| 0 <= m < us.len() && us[m] == a@;
                            assert(pairs@[m].0@ == us[m]);
                        }
                        None
                    },
                }
            },
            None => {
                assert(main_author(c) is None);
                None
            },
        };
        match new_author {
            Some(na) => {
                let ghost before = commits@;
                commits.entries[k].author = na;
                assert(commits@ =~= before.update(k as int, with_merged_author(us, c)));
            },
            None => {},
        }
        k = k + 1;
    }
    assert forall|a: int, b: int|
        0 <= a < commits@.len() && 0 <= b < commits@.len() && a != b implies #[trigger] commits@[a].hash
        != #[trigger] commits@[b].hash by {
        assert(commits@[a].hash == cs[a].hash);
        assert(commits@[b].hash == cs[b].hash);
    };
    (mergers, authors)
}


proof fn lemma_members_alike(us: Seq<AuthorView>, i: int, j: int, m: int)
    requires
        connected(us, i, j),
    ensures
        members_upto(us, i, m) == members_upto(us, j, m),
    decreases m,
{
    if m > 0 {
        lemma_members_alike(us, i, j, m - 1);
        lemma_connected_symmetric(us, i, j);
        if connected(us, i, m - 1) {
            lemma_connected_transitive(us, j, i, m - 1);
        }
        if connected(us, j, m - 1) {
            lemma_connected_transitive(us, i, j, m - 1);
        }
    }
}

/// The edit distance of two texts does not depend on their order.
pub proof fn lemma_edit_distance_symmetric(a: Seq<char>, b: Seq<char>)
    ensures
        edit_distance(a, b) == edit_distance(b, a),
    decreases a.len() + b.len(),
{
    if a.len() > 0 && b.len() > 0 {
        lemma_edit_distance_symmetric(a.drop_last(), b);
        lemma_edit_distance_symmetric(a, b.drop_last());
        lemma_edit_distance_symmetric(a.drop_last(), b.drop_last());
    }
}

/// Similarity does not depend on the order of the two people.
pub proof fn lemma_similar_symmetric(a: AuthorView, b: AuthorView)
    ensures
        similar(a, b) == similar(b, a),
{
    lemma_edit_distance_symmetric(a.name, b.name);
    lemma_edit_distance_symmetric(a.email, b.email);
}

/// Two people joined by a walk along similar people are merged into the same person.
pub proof fn lemma_connected_same_alias(us: Seq<AuthorView>, i: int, j: int)
    requires
        connected(us, i, j),
    ensures
        alias_of(us, i) == alias_of(us, j),
{
    lemma_members_alike(us, i, j, us.len() as int);
}

/// Two similar people are merged into the same person.
pub proof fn lemma_similar_same_alias(us: Seq<AuthorView>, i: int, j: int)
    requires
        0 <= i < us.len(),
        0 <= j < us.len(),
        similar(us[i], us[j]),
    ensures
        alias_of(us, i) == alias_of(us, j),
{
    if i == j {
    } else {
        lemma_similar_symmetric(us[i], us[j]);
        assert(linked(us, i, j) || linked(us, j, i));
        if linked(us, i, j) {
            lemma_connected_link(us, i, j);
            lemma_connected_same_alias(us, i, j);
        } else {
            lemma_connected_link(us, j, i);
            lemma_connected_same_alias(us, j, i);
        }
    }
}

/// There are at most as many persons as people: merging never adds one.
pub proof fn lemma_person_count_bound(us: Seq<AuthorView>)
    ensures
        person_count(us) <= us.len(),
        us.len() > 0 ==> person_count(us) >= 1,
{
    vstd::set_lib::lemma_int_range(0, us.len() as int);
    vstd::set_lib::lemma_len_subset(first_aliases(us), vstd::set_lib::set_int_range(0, us.len() as int));
    if us.len() > 0 {
        assert(first_aliases(us).contains(0));
        vstd::set::axiom_set_remove_len(first_aliases(us), 0);
    }
}

/// No text kept from `inputs` holds another kept text.
pub proof fn lemma_kept_not_nested(inputs: Seq<Seq<char>>, s: Seq<char>, t: Seq<char>)
    requires
        is_kept(inputs, s),
        is_kept(inputs, t),
        s != t,
    ensures
        !contains_seq(s, t),
{
    let k = choose|k: int| 0 <= k < inputs.len() && inputs[k] == s;
    assert(inputs[k] != t);
}

proof fn lemma_substring_transitive(a: Seq<char>, b: Seq<char>, c: Seq<char>)
    requires
        contains_seq(a, b),
        contains_seq(b, c),
    ensures
        contains_seq(a, c),
{
    let i = choose|i: int| crate::text::occurs_at(a, b, i);
    let j = choose|j: int| crate::text::occurs_at(b, c, j);
    assert(a.subrange(i + j, i + j + c.len()) =~= b.subrange(j, j + c.len()));
    assert(crate::text::occurs_at(a, c, i + j));
}

proof fn lemma_substring_len(a: Seq<char>, b: Seq<char>)
    requires
        contains_seq(a, b),
    ensures
        b.len() <= a.len(),
        b.len() == a.len() ==> a == b,
{
    let i = choose|i: int| crate::text::occurs_at(a, b, i);
    if b.len() == a.len() {
        assert(a.subrange(0, a.len() as int) =~= a);
    }
}

/// The length of the longest text of `v`.
pub open spec fn max_len(v: Seq<Seq<char>>) -> int
    decreases v.len(),
{
    if v.len() == 0 {
        0
    } else {
        let m = max_len(v.drop_last());
        if v.last().len() > m {
            v.last().len() as int
        } else {
            m
        }
    }
}

proof fn lemma_max_len(v: Seq<Seq<char>>, k: int)
    requires
        0 <= k < v.len(),
    ensures
        v[k].len() <= max_len(v),
    decreases v.len(),
{
    if k < v.len() - 1 {
        lemma_max_len(v.drop_last(), k);
    }
}

/// A non-empty text held by input `k` lies within some kept text.
proof fn lemma_covered_by_kept(inputs: Seq<Seq<char>>, s: Seq<char>, k: int) -> (t: Seq<char>)
    requires
        0 <= k < inputs.len(),
        s.len() > 0,
        contains_seq(inputs[k], s),
    ensures
        is_kept(inputs, t),
        contains_seq(t, s),
    decreases max_len(inputs) - inputs[k].len(),
{
    let u = inputs[k];
    lemma_substring_len(u, s);
    assert(inputs.contains(u));
    lemma_max_len(inputs, k);
    if is_kept(inputs, u) {
        u
    } else {
        let q = choose|q: int| 0 <= q < inputs.len() && #[trigger] inputs[q] != u && contains_seq(inputs[q], u);
        lemma_substring_len(inputs[q], u);
        lemma_substring_transitive(inputs[q], u, s);
        lemma_max_len(inputs, q);
        lemma_covered_by_kept(inputs, s, q)
    }
}

/// Nothing is lost when overlapping texts are reduced: every non-empty input
/// lies within one of the kept texts.
pub proof fn lemma_reduced_covers(inputs: Seq<Seq<char>>, k: int)
    requires
        0 <= k < inputs.len(),
        inputs[k].len() > 0,
    ensures
        exists|t: Seq<char>| is_kept(inputs, t) && #[trigger] contains_seq(t, inputs[k]),
{
    let s = inputs[k];
    assert(crate::text::occurs_at(s, s, 0)) by {
        assert(s.subrange(0, s.len() as int) =~= s);
    };
    let t = lemma_covered_by_kept(inputs, s, k);
}

/// Reducing the kept texts again keeps them all: the reduction is idempotent.
pub proof fn lemma_reduced_idempotent(inputs: Seq<Seq<char>>)
    ensures
        reduced(reduced(inputs)) == reduced(inputs),
{
    let ks = Set::new(|s: Seq<char>| is_kept(inputs, s));
    vstd::seq_lib::seq_to_set_is_finite(inputs);
    assert(ks.subset_of(inputs.to_set()));
    vstd::set_lib::lemma_len_subset(ks, inputs.to_set());
    lemma_sorted_list_exists(ks);
    let r = reduced(inputs);
    let ks2 = Set::new(|s: Seq<char>| is_kept(r, s));
    assert forall|s: Seq<char>| #[trigger] ks2.contains(s) <==> ks.contains(s) by {
        if ks.contains(s) {
            assert(r.to_set().contains(s));
            assert forall|k: int| 0 <= k < r.len() && #[trigger] r[k] != s implies !contains_seq(r[k], s) by {
                assert(r.to_set().contains(r[k]));
                assert(ks.contains(r[k]));
                let q = choose|q: int| 0 <= q < inputs.len() && inputs[q] == r[k];
                assert(inputs[q] != s);
            };
            assert(is_kept(r, s));
        }
        if ks2.contains(s) {
            assert(r.to_set().contains(s));
        }
    };
    assert(ks2 =~= ks);
}


/// Two different people who are similar leave fewer persons than people.
proof fn lemma_similar_fewer_persons(us: Seq<AuthorView>, i: int, j: int)
    requires
        0 <= i < j < us.len(),
        similar(us[i], us[j]),
    ensures
        person_count(us) < us.len(),
{
    lemma_connected_link(us, i, j);
    assert(!first_aliases(us).contains(j));
    let r = vstd::set_lib::set_int_range(0, us.len() as int);
    vstd::set_lib::lemma_int_range(0, us.len() as int);
    assert(first_aliases(us).subset_of(r.remove(j)));
    vstd::set::axiom_set_remove_len(r, j);
    vstd::set_lib::lemma_len_subset(first_aliases(us), r.remove(j));
}

/// Two different people are merged into one person when they share a
/// non-empty name or e-mail address, or when their names, or their e-mail
/// addresses, are both at least `MIN_SIZE` bytes long, at most
/// `MAX_DISTANCE` bytes apart in length and at most `MAX_DISTANCE` edits
/// apart: they are similar, get the same merged person, and there are fewer
/// persons than people.
pub proof fn lemma_alias_rules(us: Seq<AuthorView>, i: int, j: int)
    requires
        0 <= i < us.len(),
        0 <= j < us.len(),
        i != j,
        ({
            let (a, b) = (us[i], us[j]);
            ||| (a.name.len() > 0 && a.name == b.name)
            ||| (a.email.len() > 0 && a.email == b.email)
            ||| (byte_len(a.name) >= MIN_SIZE && byte_len(b.name) >= MIN_SIZE && byte_len(a.name) - byte_len(b.name)
                <= MAX_DISTANCE && byte_len(b.name) - byte_len(a.name) <= MAX_DISTANCE && edit_distance(a.name, b.name)
                <= MAX_DISTANCE)
            ||| (byte_len(a.email) >= MIN_SIZE && byte_len(b.email) >= MIN_SIZE && byte_len(a.email) - byte_len(b.email)
                <= MAX_DISTANCE && byte_len(b.email) - byte_len(a.email) <= MAX_DISTANCE && edit_distance(a.email, b.email)
                <= MAX_DISTANCE)
        }),
    ensures
        similar(us[i], us[j]),
        alias_of(us, i) == alias_of(us, j),
        person_count(us) < us.len(),
{
    lemma_similar_same_alias(us, i, j);
    lemma_similar_symmetric(us[i], us[j]);
    if i < j {
        lemma_similar_fewer_persons(us, i, j);
    } else {
        lemma_similar_fewer_persons(us, j, i);
    }
}

} // verus!
