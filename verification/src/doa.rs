//! Degree-of-authorship bookkeeping: which people created each file and
//! which commits changed it since.
use vstd::prelude::*;
use crate::git::{main_author, AuthorInfo, AuthorView, ChangeKind, ChangeType, CommitMap, CommitView, FileChangeView};
use crate::text::{chars_of, search_sorted, sorted_list, sorted_unique, string_of, views};

verus! {

/// One commit that changed a file, and when it was committed (seconds since the epoch).
#[derive(Debug, Clone, PartialEq, Eq, Hash)]
pub struct Delivery {
    pub commit: String,
    pub timestamp: u64,
}

pub struct DeliveryView {
    pub commit: Seq<char>,
    pub timestamp: u64,
}

impl View for Delivery {
    type V = DeliveryView;

    open spec fn view(&self) -> DeliveryView {
        DeliveryView { commit: self.commit@, timestamp: self.timestamp }
    }
}

pub open spec fn delivery_views(v: Seq<Delivery>) -> Seq<DeliveryView> {
    v.map_values(|d: Delivery| d@)
}

/// What one person did to one file: created it or not, and the commits that
/// changed it.
#[derive(Debug, Clone, PartialEq, Eq, Hash)]
pub struct Authorship {
    pub author: AuthorInfo,
    pub added: bool,
    pub deliveries: Vec<Delivery>,
    /// When the file was created, for an authorship that began with the creation.
    pub added_timestamp: Option<u64>,
}

pub struct AuthorshipView {
    pub author: AuthorView,
    pub added: bool,
    pub deliveries: Seq<DeliveryView>,
    pub added_timestamp: Option<u64>,
}

impl View for Authorship {
    type V = AuthorshipView;

    open spec fn view(&self) -> AuthorshipView {
        AuthorshipView {
            author: self.author@,
            added: self.added,
            deliveries: delivery_views(self.deliveries@),
            added_timestamp: self.added_timestamp,
        }
    }
}

pub open spec fn authorship_views(v: Seq<Authorship>) -> Seq<AuthorshipView> {
    v.map_values(|a: Authorship| a@)
}

/// A file tracked for degree-of-authorship calculations.
#[derive(Debug, Clone)]
pub struct DoaFile {
    pub name: String,
    pub authorships: Vec<Authorship>,
    pub deliveries: Vec<Delivery>,
}

pub struct DoaFileView {
    pub name: Seq<char>,
    pub authorships: Seq<AuthorshipView>,
    pub deliveries: Seq<DeliveryView>,
}

impl View for DoaFile {
    type V = DoaFileView;

    open spec fn view(&self) -> DoaFileView {
        DoaFileView {
            name: self.name@,
            authorships: authorship_views(self.authorships@),
            deliveries: delivery_views(self.deliveries@),
        }
    }
}

pub open spec fn doa_views(v: Seq<DoaFile>) -> Seq<DoaFileView> {
    v.map_values(|d: DoaFile| d@)
}

/// Some authorship of `s` is `a`'s.
pub open spec fn has_authorship(s: Seq<AuthorshipView>, a: AuthorView) -> bool {
    exists|i: int| 0 <= i < s.len() && #[trigger] s[i].author == a
}

/// The first authorship of `s` that is `a`'s.
pub open spec fn authorship_pos(s: Seq<AuthorshipView>, a: AuthorView) -> int {
    choose|i: int|
        0 <= i < s.len() && #[trigger] s[i].author == a && forall|j: int| 0 <= j < i ==> (#[trigger] s[j]).author != a
}

/// The file after `a` is recorded as its creator at time `ts`.
pub open spec fn with_added(d: DoaFileView, a: AuthorView, ts: u64) -> DoaFileView {
    if has_authorship(d.authorships, a) {
        let i = authorship_pos(d.authorships, a);
        DoaFileView {
            authorships: d.authorships.update(i, AuthorshipView { added: true, ..d.authorships[i] }),
            ..d
        }
    } else {
        DoaFileView {
            authorships: d.authorships.push(
                AuthorshipView { author: a, added: true, deliveries: Seq::empty(), added_timestamp: Some(ts) },
            ),
            ..d
        }
    }
}

/// The file after `a` is recorded as the author of the change `del`.
pub open spec fn with_delivery(d: DoaFileView, a: AuthorView, del: DeliveryView) -> DoaFileView {
    if has_authorship(d.authorships, a) {
        let i = authorship_pos(d.authorships, a);
        DoaFileView {
            name: d.name,
            authorships: d.authorships.update(
                i,
                AuthorshipView { deliveries: d.authorships[i].deliveries.push(del), ..d.authorships[i] },
            ),
            deliveries: d.deliveries.push(del),
        }
    } else {
        DoaFileView {
            name: d.name,
            authorships: d.authorships.push(
                AuthorshipView { author: a, added: false, deliveries: seq![del], added_timestamp: None },
            ),
            deliveries: d.deliveries.push(del),
        }
    }
}

fn same_author(a: &AuthorInfo, b: &AuthorInfo) -> (r: bool)
    ensures
        r == (a@ == b@),
{
    a.name == b.name && a.email == b.email
}

fn clone_delivery(d: &Delivery) -> (r: Delivery)
    ensures
        r@ == d@,
{
    Delivery { commit: d.commit.clone(), timestamp: d.timestamp }
}

impl DoaFile {
    /// A file with no authorships and no deliveries yet.
    pub fn new(name: String) -> (r: DoaFile)
        ensures
            r@ == (DoaFileView { name: name@, authorships: Seq::empty(), deliveries: Seq::empty() }),
    {
        let r = DoaFile { name, authorships: Vec::new(), deliveries: Vec::new() };
        assert(r@.authorships =~= Seq::<AuthorshipView>::empty());
        assert(r@.deliveries =~= Seq::<DeliveryView>::empty());
        r
    }

    /// The position of the first authorship of `author`, if any.
    fn find_authorship(&self, author: &AuthorInfo) -> (r: Option<usize>)
        ensures
            match r {
                Some(i) => i < self@.authorships.len() && has_authorship(self@.authorships, author@) && i == authorship_pos(
                    self@.authorships,
                    author@,
                ),
                None => !has_authorship(self@.authorships, author@),
            },
    {
        let ghost s = self@.authorships;
        let mut i: usize = 0;
        while i < self.authorships.len()
            invariant
                i <= self.authorships@.len(),
                s == self@.authorships,
                forall|j: int| 0 <= j < i ==> (#[trigger] s[j]).author != author@,
            decreases self.authorships.len() - i,
        {
            if same_author(&self.authorships[i].author, author) {
                assert(s[i as int].author == author@);
                let ghost p = authorship_pos(s, author@);
                assert(0 <= p < s.len() && s[p].author == author@ && forall|j: int| 0 <= j < p ==> (#[trigger] s[j]).author != author@);
                assert(p == i);
                return Some(i);
            }
            i = i + 1;
        }
        None
    }

    /// Records `author` as a creator of the file, at time `timestamp`.
    pub fn insert_added(&mut self, author: AuthorInfo, timestamp: u64)
        ensures
            final(self)@ == with_added(old(self)@, author@, timestamp),
    {
        let ghost av = author@;
        match self.find_authorship(&author) {
            Some(i) => {
                let ghost before = self@;
                self.authorships[i].added = true;
                assert(self@.authorships =~= before.authorships.update(i as int, AuthorshipView { added: true, ..before.authorships[i as int] }));
            },
            None => {
                let ghost before = self@;
                let a = Authorship { author, added: true, deliveries: Vec::new(), added_timestamp: Some(timestamp) };
                assert(a@.deliveries =~= Seq::<DeliveryView>::empty());
                self.authorships.push(a);
                assert(self@.authorships =~= before.authorships.push(a@));
            },
        }
    }

    /// Records `author` as the author of the change `delivery` to the file.
    pub fn insert_delivery(&mut self, author: AuthorInfo, delivery: Delivery)
        ensures
            final(self)@ == with_delivery(old(self)@, author@, delivery@),
    {
        let ghost before = self@;
        match self.find_authorship(&author) {
            Some(i) => {
                let d2 = clone_delivery(&delivery);
                self.authorships[i].deliveries.push(d2);
                assert(self@.authorships[i as int].deliveries =~= before.authorships[i as int].deliveries.push(delivery@));
                assert(self@.authorships =~= before.authorships.update(
                    i as int,
                    AuthorshipView { deliveries: before.authorships[i as int].deliveries.push(delivery@), ..before.authorships[i as int] },
                ));
            },
            None => {
                let a = Authorship {
                    author,
                    added: false,
                    deliveries: vec![clone_delivery(&delivery)],
                    added_timestamp: None,
                };
                assert(a@.deliveries =~= seq![delivery@]);
                self.authorships.push(a);
                assert(self@.authorships =~= before.authorships.push(a@));
            },
        }
        let ghost mid = self@;
        self.deliveries.push(delivery);
        assert(self@.deliveries =~= before.deliveries.push(delivery@));
    }
}


/// A file with no authorships and no deliveries yet.
pub open spec fn empty_doa(name: Seq<char>) -> DoaFileView {
    DoaFileView { name, authorships: Seq::empty(), deliveries: Seq::empty() }
}

/// The files of today, each once, in name order, with nothing recorded yet.
pub open spec fn initial_doa(files: Seq<Seq<char>>) -> Seq<DoaFileView> {
    sorted_list(files.to_set()).map_values(|n: Seq<char>| empty_doa(n))
}

/// Some file of `ds` is named `n`.
pub open spec fn has_file(ds: Seq<DoaFileView>, n: Seq<char>) -> bool {
    exists|i: int| 0 <= i < ds.len() && #[trigger] ds[i].name == n
}

/// The position of the file named `n`.
pub open spec fn file_pos(ds: Seq<DoaFileView>, n: Seq<char>) -> int {
    choose|i: int| 0 <= i < ds.len() && #[trigger] ds[i].name == n
}

/// What a change `f` made in commit `c`, credited to `a`, adds to its file:
/// a creation, or a delivery, or nothing for a deletion.
pub open spec fn with_change(d: DoaFileView, a: AuthorView, c: CommitView, f: FileChangeView) -> DoaFileView {
    match f.change {
        ChangeKind::Added => with_added(d, a, c.committer_date),
        ChangeKind::Deleted => d,
        _ => with_delivery(d, a, DeliveryView { commit: c.hash, timestamp: c.committer_date }),
    }
}

/// The files after the changes `fs` of commit `c`, credited to `a`, are
/// recorded under the recent names of the files they touched.
pub open spec fn with_changes(ds: Seq<DoaFileView>, a: AuthorView, c: CommitView, fs: Seq<FileChangeView>) -> Seq<DoaFileView>
    decreases fs.len(),
{
    if fs.len() == 0 {
        ds
    } else {
        let prev = with_changes(ds, a, c, fs.drop_last());
        let f = fs.last();
        match f.recent {
            Some(n) => if has_file(prev, n) {
                let i = file_pos(prev, n);
                prev.update(i, with_change(prev[i], a, c, f))
            } else {
                prev
            },
            None => prev,
        }
    }
}

/// The files after the commits `cs` are recorded in turn; a commit with no
/// main author is passed over.
pub open spec fn with_commits(ds: Seq<DoaFileView>, cs: Seq<CommitView>) -> Seq<DoaFileView>
    decreases cs.len(),
{
    if cs.len() == 0 {
        ds
    } else {
        let prev = with_commits(ds, cs.drop_last());
        let c = cs.last();
        match main_author(c) {
            Some(a) => with_changes(prev, a, c, c.files),
            None => prev,
        }
    }
}

pub proof fn lemma_with_changes_names(ds: Seq<DoaFileView>, a: AuthorView, c: CommitView, fs: Seq<FileChangeView>)
    ensures
        with_changes(ds, a, c, fs).len() == ds.len(),
        forall|i: int| 0 <= i < ds.len() ==> (#[trigger] with_changes(ds, a, c, fs)[i]).name == ds[i].name,
    decreases fs.len(),
{
    if fs.len() > 0 {
        lemma_with_changes_names(ds, a, c, fs.drop_last());
    }
}

pub proof fn lemma_with_commits_names(ds: Seq<DoaFileView>, cs: Seq<CommitView>)
    ensures
        with_commits(ds, cs).len() == ds.len(),
        forall|i: int| 0 <= i < ds.len() ==> (#[trigger] with_commits(ds, cs)[i]).name == ds[i].name,
    decreases cs.len(),
{
    if cs.len() > 0 {
        lemma_with_commits_names(ds, cs.drop_last());
        let prev = with_commits(ds, cs.drop_last());
        match main_author(cs.last()) {
            Some(a) => lemma_with_changes_names(prev, a, cs.last(), cs.last().files),
            None => {},
        }
    }
}

fn clone_author(a: &AuthorInfo) -> (r: AuthorInfo)
    ensures
        r@ == a@,
{
    AuthorInfo { name: a.name.clone(), email: a.email.clone() }
}

/// Gathers, for each file of today, who created it and which commits changed
/// it, from the commits whose file changes carry recent names.
pub fn prepare_for_doa(files: &[String], commits: &CommitMap) -> (r: Vec<DoaFile>)
    ensures
        doa_views(r@) == with_commits(initial_doa(files@.map_values(|f: String| f@)), commits@),
{
    let ghost fv = files@.map_values(|f: String| f@);
    let mut fchars: Vec<Vec<char>> = Vec::new();
    let mut i: usize = 0;
    while i < files.len()
        invariant
            i <= files@.len(),
            fv == files@.map_values(|f: String| f@),
            views(fchars@) == fv.take(i as int),
        decreases files.len() - i,
    {
        let ghost before = views(fchars@);
        let c = chars_of(files[i].as_str());
        fchars.push(c);
        assert(views(fchars@) =~= before.push(fv[i as int]));
        assert(fv.take(i + 1) =~= fv.take(i as int).push(fv[i as int]));
        i = i + 1;
    }
    assert(fv.take(files.len() as int) =~= fv);
    let names = sorted_unique(&fchars);
    let ghost nv = views(names@);
    proof {
        crate::text::lemma_sorted_list(fv.to_set(), nv);
    }
    let mut docs: Vec<DoaFile> = Vec::new();
    let mut k: usize = 0;
    while k < names.len()
        invariant
            k <= names@.len(),
            nv == views(names@),
            doa_views(docs@) == nv.take(k as int).map_values(|n: Seq<char>| empty_doa(n)),
        decreases names.len() - k,
    {
        let ghost before = doa_views(docs@);
        let d = DoaFile::new(string_of(&names[k]));
        docs.push(d);
        assert(doa_views(docs@) =~= before.push(empty_doa(nv[k as int])));
        assert(nv.take(k + 1).map_values(|n: Seq<char>| empty_doa(n)) =~= nv.take(k as int).map_values(|n: Seq<char>| empty_doa(n)).push(empty_doa(nv[k as int])));
        k = k + 1;
    }
    assert(nv.take(names.len() as int) =~= nv);
    let ghost init = doa_views(docs@);
    assert(init == initial_doa(fv));
    let ghost cs = commits@;
    let entries = commits.values();
    let mut ci: usize = 0;
    while ci < entries.len()
        invariant
            ci <= entries@.len(),
            cs == crate::git::commit_views(entries@),
            nv == views(names@),
            crate::text::strictly_sorted(nv),
            docs@.len() == nv.len(),
            forall|t: int| 0 <= t < nv.len() ==> (#[trigger] doa_views(docs@)[t]).name == nv[t],
            doa_views(docs@) == with_commits(init, cs.take(ci as int)),
        decreases entries.len() - ci,
    {
        let c = &entries[ci];
        assert(cs[ci as int] == c@);
        assert(cs.take(ci + 1).drop_last() =~= cs.take(ci as int));
        assert(cs.take(ci + 1).last() == c@);
        let ghost prev = doa_views(docs@);
        match c.get_main_author() {
            Some(author) => {
                let ghost a = author@;
                assert(main_author(c@) == Some(a));
                let ghost fs = c@.files;
                let delivery = Delivery { commit: c.hash.clone(), timestamp: c.committer_date };
                let mut j: usize = 0;
                assert(fs.take(0) =~= Seq::<FileChangeView>::empty());
                while j < c.files.len()
                    invariant
                        j <= c.files@.len(),
                        fs == c@.files,
                        a == author@,
                        delivery@ == (DeliveryView { commit: c@.hash, timestamp: c@.committer_date }),
                        nv == views(names@),
                        crate::text::strictly_sorted(nv),
                        docs@.len() == nv.len(),
                        forall|t: int| 0 <= t < nv.len() ==> (#[trigger] doa_views(docs@)[t]).name == nv[t],
                        doa_views(docs@) == with_changes(prev, a, c@, fs.take(j as int)),
                    decreases c.files.len() - j,
                {
                    let f = &c.files[j];
                    assert(fs[j as int] == f@);
                    assert(fs.take(j + 1).drop_last() =~= fs.take(j as int));
                    assert(fs.take(j + 1).last() == f@);
                    let ghost cur = doa_views(docs@);
                    match &f.recent_file_name {
                        Some(rn) => {
                            let rc = chars_of(rn.as_str());
                            let (pos, found) = search_sorted(&names, &rc);
                            if found {
                                assert(cur[pos as int].name == rc@);
                                assert(has_file(cur, rc@));
                                let ghost p = file_pos(cur, rc@);
                                assert(cur[p].name == rc@);
                                proof {
                                    if p != pos as int {
                                        assert(nv[p] == nv[pos as int]);
                                        if p < pos {
                                            assert(crate::text::lex_lt(nv[p], nv[pos as int]));
                                        } else {
                                            assert(crate::text::lex_lt(nv[pos as int], nv[p]));
                                        }
                                        crate::text::lemma_lex_irreflexive(nv[p]);
                                    }
                                }
                                match &f.change_type {
                                    ChangeType::Added => {
                                        docs[pos].insert_added(clone_author(author), c.committer_date);
                                    },
                                    ChangeType::Deleted => {},
                                    _ => {
                                        docs[pos].insert_delivery(clone_author(author), clone_delivery(&delivery));
                                    },
                                }
                                assert(doa_views(docs@) =~= cur.update(pos as int, with_change(cur[pos as int], a, c@, f@)));
                            } else {
                                assert forall|t: int| 0 <= t < cur.len() implies #[trigger] cur[t].name != rc@ by {
                                    if cur[t].name == rc@ {
                                        assert(nv[t] == rc@);
                                    }
                                };
                            }
                        },
                        None => {},
                    }
                    j = j + 1;
                }
                assert(fs.take(c.files.len() as int) =~= fs);
            },
            None => {
                assert(main_author(c@) is None);
            },
        }
        ci = ci + 1;
    }
    assert(cs.take(entries.len() as int) =~= cs);
    docs
}


fn clone_deliveries(v: &Vec<Delivery>) -> (r: Vec<Delivery>)
    ensures
        delivery_views(r@) == delivery_views(v@),
{
    let mut r: Vec<Delivery> = Vec::new();
    let mut i: usize = 0;
    while i < v.len()
        invariant
            i <= v@.len(),
            delivery_views(r@) == delivery_views(v@).take(i as int),
        decreases v.len() - i,
    {
        let ghost before = delivery_views(r@);
        r.push(clone_delivery(&v[i]));
        assert(delivery_views(r@) =~= before.push(v@[i as int]@));
        assert(delivery_views(v@).take(i + 1) =~= delivery_views(v@).take(i as int).push(v@[i as int]@));
        i = i + 1;
    }
    assert(delivery_views(v@).take(v.len() as int) =~= delivery_views(v@));
    r
}

fn clone_authorship(a: &Authorship) -> (r: Authorship)
    ensures
        r@ == a@,
{
    Authorship {
        author: clone_author(&a.author),
        added: a.added,
        deliveries: clone_deliveries(&a.deliveries),
        added_timestamp: a.added_timestamp,
    }
}

impl DoaFile {
    /// A copy of the file record.
    pub fn duplicate(&self) -> (r: DoaFile)
        ensures
            r@ == self@,
    {
        let mut auths: Vec<Authorship> = Vec::new();
        let mut i: usize = 0;
        while i < self.authorships.len()
            invariant
                i <= self.authorships@.len(),
                authorship_views(auths@) == authorship_views(self.authorships@).take(i as int),
            decreases self.authorships.len() - i,
        {
            let ghost before = authorship_views(auths@);
            auths.push(clone_authorship(&self.authorships[i]));
            assert(authorship_views(auths@) =~= before.push(self.authorships@[i as int]@));
            assert(authorship_views(self.authorships@).take(i + 1) =~= authorship_views(self.authorships@).take(i as int).push(self.authorships@[i as int]@));
            i = i + 1;
        }
        assert(authorship_views(self.authorships@).take(self.authorships.len() as int) =~= authorship_views(self.authorships@));
        DoaFile {
            name: self.name.clone(),
            authorships: auths,
            deliveries: clone_deliveries(&self.deliveries),
        }
    }
}


/// The number of deliveries over all the authorships `s`.
pub open spec fn delivery_total(s: Seq<AuthorshipView>) -> int
    decreases s.len(),
{
    if s.len() == 0 {
        0
    } else {
        delivery_total(s.drop_last()) + s.last().deliveries.len()
    }
}

/// A file record is consistent: no author has two authorships, and each of
/// the file's deliveries is a delivery of one authorship.
pub open spec fn doa_consistent(d: DoaFileView) -> bool {
    &&& forall|i: int, j: int|
        0 <= i < d.authorships.len() && 0 <= j < d.authorships.len() && i != j ==> #[trigger] d.authorships[i].author
            != #[trigger] d.authorships[j].author
    &&& d.deliveries.len() == delivery_total(d.authorships)
}

proof fn lemma_total_update(s: Seq<AuthorshipView>, i: int, x: AuthorshipView)
    requires
        0 <= i < s.len(),
    ensures
        delivery_total(s.update(i, x)) == delivery_total(s) - s[i].deliveries.len() + x.deliveries.len(),
    decreases s.len(),
{
    if i < s.len() - 1 {
        assert(s.update(i, x).drop_last() =~= s.drop_last().update(i, x));
        lemma_total_update(s.drop_last(), i, x);
    } else {
        assert(s.update(i, x).drop_last() =~= s.drop_last());
    }
}

proof fn lemma_total_push(s: Seq<AuthorshipView>, x: AuthorshipView)
    ensures
        delivery_total(s.push(x)) == delivery_total(s) + x.deliveries.len(),
{
    assert(s.push(x).drop_last() =~= s);
}

proof fn lemma_change_consistent(d: DoaFileView, a: AuthorView, c: CommitView, f: FileChangeView)
    requires
        doa_consistent(d),
    ensures
        doa_consistent(with_change(d, a, c, f)),
        with_change(d, a, c, f).name == d.name,
{
    let s = d.authorships;
    if has_authorship(s, a) {
        let i = authorship_pos(s, a);
        let w = choose|w: int| 0 <= w < s.len() && #[trigger] s[w].author == a;
        assert(0 <= i < s.len() && s[i].author == a && forall|j: int| 0 <= j < i ==> (#[trigger] s[j]).author != a) by {
            let m = lemma_first_authorship(s, a, w);
        };
        lemma_total_update(s, i, AuthorshipView { added: true, ..s[i] });
        lemma_total_update(s, i, AuthorshipView { deliveries: s[i].deliveries.push(DeliveryView { commit: c.hash, timestamp: c.committer_date }), ..s[i] });
    } else {
        lemma_total_push(s, AuthorshipView { author: a, added: true, deliveries: Seq::empty(), added_timestamp: Some(c.committer_date) });
        lemma_total_push(s, AuthorshipView { author: a, added: false, deliveries: seq![DeliveryView { commit: c.hash, timestamp: c.committer_date }], added_timestamp: None });
    }
}

proof fn lemma_first_authorship(s: Seq<AuthorshipView>, a: AuthorView, w: int) -> (m: int)
    requires
        0 <= w < s.len(),
        s[w].author == a,
    ensures
        0 <= m <= w,
        s[m].author == a,
        forall|j: int| 0 <= j < m ==> (#[trigger] s[j]).author != a,
    decreases w,
{
    if exists|j: int| 0 <= j < w && (#[trigger] s[j]).author == a {
        let j = choose|j: int| 0 <= j < w && (#[trigger] s[j]).author == a;
        lemma_first_authorship(s, a, j)
    } else {
        w
    }
}

proof fn lemma_changes_consistent(ds: Seq<DoaFileView>, a: AuthorView, c: CommitView, fs: Seq<FileChangeView>)
    requires
        forall|i: int| 0 <= i < ds.len() ==> doa_consistent(#[trigger] ds[i]),
    ensures
        forall|i: int| 0 <= i < ds.len() ==> doa_consistent(#[trigger] with_changes(ds, a, c, fs)[i]),
    decreases fs.len(),
{
    if fs.len() > 0 {
        lemma_changes_consistent(ds, a, c, fs.drop_last());
        lemma_with_changes_names(ds, a, c, fs.drop_last());
        let prev = with_changes(ds, a, c, fs.drop_last());
        let f = fs.last();
        match f.recent {
            Some(n) => if has_file(prev, n) {
                let i = file_pos(prev, n);
                lemma_change_consistent(prev[i], a, c, f);
            },
            None => {},
        }
    }
}

/// Every file record that the commits build is consistent: no author has two
/// authorships of one file, and a file's deliveries are exactly those of its
/// authorships, counted together.
pub proof fn lemma_commits_consistent(files: Seq<Seq<char>>, cs: Seq<CommitView>)
    ensures
        forall|i: int| 0 <= i < with_commits(initial_doa(files), cs).len() ==> doa_consistent(
            #[trigger] with_commits(initial_doa(files), cs)[i],
        ),
    decreases cs.len(),
{
    let init = initial_doa(files);
    if cs.len() == 0 {
        assert forall|i: int| 0 <= i < init.len() implies doa_consistent(#[trigger] init[i]) by {
            assert(init[i].authorships.len() == 0);
            assert(init[i].deliveries.len() == 0);
            assert(delivery_total(init[i].authorships) == 0);
        };
    } else {
        lemma_commits_consistent(files, cs.drop_last());
        let prev = with_commits(init, cs.drop_last());
        match main_author(cs.last()) {
            Some(a) => {
                lemma_changes_consistent(prev, a, cs.last(), cs.last().files);
                lemma_with_changes_names(prev, a, cs.last(), cs.last().files);
            },
            None => {},
        }
    }
}


/// File record `e` holds everything `d` held: the same name, and each
/// authorship of `d` still in its place with the same author, still a
/// creation if it was one, and with all its deliveries.
pub open spec fn file_grows(d: DoaFileView, e: DoaFileView) -> bool {
    &&& e.name == d.name
    &&& e.authorships.len() >= d.authorships.len()
    &&& forall|j: int| #![trigger e.authorships[j]] 0 <= j < d.authorships.len() ==> {
        &&& e.authorships[j].author == d.authorships[j].author
        &&& (d.authorships[j].added ==> e.authorships[j].added)
        &&& forall|x: DeliveryView| #[trigger] d.authorships[j].deliveries.contains(x) ==> e.authorships[j].deliveries.contains(x)
    }
}

/// Each file record of `es` holds everything its counterpart in `ds` held.
pub open spec fn files_grow(ds: Seq<DoaFileView>, es: Seq<DoaFileView>) -> bool {
    &&& es.len() == ds.len()
    &&& forall|i: int| 0 <= i < ds.len() ==> file_grows(ds[i], #[trigger] es[i])
}

proof fn lemma_files_grow_trans(a: Seq<DoaFileView>, b: Seq<DoaFileView>, c: Seq<DoaFileView>)
    requires
        files_grow(a, b),
        files_grow(b, c),
    ensures
        files_grow(a, c),
{
    assert forall|i: int| 0 <= i < a.len() implies file_grows(a[i], #[trigger] c[i]) by {
        assert(file_grows(a[i], b[i]));
        assert(file_grows(b[i], c[i]));
        assert forall|j: int| #![trigger c[i].authorships[j]] 0 <= j < a[i].authorships.len() implies {
            &&& c[i].authorships[j].author == a[i].authorships[j].author
            &&& (a[i].authorships[j].added ==> c[i].authorships[j].added)
            &&& forall|x: DeliveryView| #[trigger] a[i].authorships[j].deliveries.contains(x) ==> c[i].authorships[j].deliveries.contains(x)
        } by {
            assert(b[i].authorships[j].author == a[i].authorships[j].author);
            assert forall|x: DeliveryView| #[trigger] a[i].authorships[j].deliveries.contains(x) implies c[i].authorships[j].deliveries.contains(x) by {
                assert(b[i].authorships[j].deliveries.contains(x));
            };
        };
    };
}

proof fn lemma_files_grow_refl(a: Seq<DoaFileView>)
    ensures
        files_grow(a, a),
{
}

proof fn lemma_authorship_pos(s: Seq<AuthorshipView>, a: AuthorView)
    requires
        has_authorship(s, a),
    ensures
        0 <= authorship_pos(s, a) < s.len(),
        s[authorship_pos(s, a)].author == a,
{
    let w = choose|w: int| 0 <= w < s.len() && #[trigger] s[w].author == a;
    let m = lemma_first_authorship(s, a, w);
}

proof fn lemma_change_grows(d: DoaFileView, a: AuthorView, c: CommitView, f: FileChangeView)
    ensures
        file_grows(d, with_change(d, a, c, f)),
{
    let s = d.authorships;
    let e = with_change(d, a, c, f);
    if has_authorship(s, a) {
        lemma_authorship_pos(s, a);
    }
    assert forall|j: int| #![trigger e.authorships[j]] 0 <= j < s.len() implies {
        &&& e.authorships[j].author == s[j].author
        &&& (s[j].added ==> e.authorships[j].added)
        &&& forall|x: DeliveryView| #[trigger] s[j].deliveries.contains(x) ==> e.authorships[j].deliveries.contains(x)
    } by {
        assert forall|x: DeliveryView| #[trigger] s[j].deliveries.contains(x) implies e.authorships[j].deliveries.contains(x) by {
            let t = choose|t: int| 0 <= t < s[j].deliveries.len() && s[j].deliveries[t] == x;
            assert(e.authorships[j].deliveries[t] == x);
        };
    };
}

proof fn lemma_changes_grow(ds: Seq<DoaFileView>, a: AuthorView, c: CommitView, fs: Seq<FileChangeView>, m: int)
    requires
        0 <= m <= fs.len(),
    ensures
        files_grow(with_changes(ds, a, c, fs.take(m)), with_changes(ds, a, c, fs)),
    decreases fs.len(),
{
    if m == fs.len() {
        assert(fs.take(m) =~= fs);
        lemma_files_grow_refl(with_changes(ds, a, c, fs));
    } else {
        let fd = fs.drop_last();
        assert(fd.take(m) =~= fs.take(m));
        lemma_changes_grow(ds, a, c, fd, m);
        let prev = with_changes(ds, a, c, fd);
        let f = fs.last();
        let next = with_changes(ds, a, c, fs);
        assert(files_grow(prev, next)) by {
            match f.recent {
                Some(n) => if has_file(prev, n) {
                    let i = file_pos(prev, n);
                    lemma_change_grows(prev[i], a, c, f);
                },
                None => {},
            }
        };
        lemma_files_grow_trans(with_changes(ds, a, c, fs.take(m)), prev, next);
    }
}

proof fn lemma_commits_grow(ds: Seq<DoaFileView>, cs: Seq<CommitView>, m: int)
    requires
        0 <= m <= cs.len(),
    ensures
        files_grow(with_commits(ds, cs.take(m)), with_commits(ds, cs)),
    decreases cs.len(),
{
    if m == cs.len() {
        assert(cs.take(m) =~= cs);
        lemma_files_grow_refl(with_commits(ds, cs));
    } else {
        let cd = cs.drop_last();
        assert(cd.take(m) =~= cs.take(m));
        lemma_commits_grow(ds, cd, m);
        let prev = with_commits(ds, cd);
        let next = with_commits(ds, cs);
        assert(files_grow(prev, next)) by {
            match main_author(cs.last()) {
                Some(a) => {
                    lemma_changes_grow(prev, a, cs.last(), cs.last().files, 0);
                    assert(cs.last().files.take(0) =~= Seq::<FileChangeView>::empty());
                },
                None => {
                    lemma_files_grow_refl(prev);
                },
            }
        };
        lemma_files_grow_trans(with_commits(ds, cs.take(m)), prev, next);
    }
}

/// File record `d` credits `a` with the change `f` of commit `c`: an
/// authorship of `a` that is a creation, for an addition, or that holds the
/// commit's delivery, for a modification or a rename.
pub open spec fn credits(d: DoaFileView, a: AuthorView, c: CommitView, f: FileChangeView) -> bool {
    exists|j: int| #![trigger d.authorships[j]]
        0 <= j < d.authorships.len() && d.authorships[j].author == a && (if f.change is Added {
            d.authorships[j].added
        } else {
            d.authorships[j].deliveries.contains(DeliveryView { commit: c.hash, timestamp: c.committer_date })
        })
}

proof fn lemma_credits_grow(d: DoaFileView, e: DoaFileView, a: AuthorView, c: CommitView, f: FileChangeView)
    requires
        credits(d, a, c, f),
        file_grows(d, e),
    ensures
        credits(e, a, c, f),
{
    let j = choose|j: int| #![trigger d.authorships[j]]
        0 <= j < d.authorships.len() && d.authorships[j].author == a && (if f.change is Added {
            d.authorships[j].added
        } else {
            d.authorships[j].deliveries.contains(DeliveryView { commit: c.hash, timestamp: c.committer_date })
        });
    assert(e.authorships[j].author == a);
}

proof fn lemma_change_credits(d: DoaFileView, a: AuthorView, c: CommitView, f: FileChangeView)
    requires
        !(f.change is Deleted),
    ensures
        credits(with_change(d, a, c, f), a, c, f),
{
    let s = d.authorships;
    let e = with_change(d, a, c, f);
    let del = DeliveryView { commit: c.hash, timestamp: c.committer_date };
    if has_authorship(s, a) {
        lemma_authorship_pos(s, a);
        let i = authorship_pos(s, a);
        assert(e.authorships[i].author == a);
        if !(f.change is Added) {
            assert(e.authorships[i].deliveries.last() == del);
        }
    } else {
        let i = s.len() as int;
        assert(e.authorships[i].author == a);
        if !(f.change is Added) {
            assert(e.authorships[i].deliveries[0] == del);
        }
    }
}

/// Each change to a file of today is credited to the commit's author,
/// whenever the author has a name or an e-mail address (the committer only
/// stands in for an author with neither): the record of the file it touched
/// (under its recent name) has an authorship of that author that is a
/// creation, for an addition, or holds the commit's delivery, for a
/// modification or a rename.
pub proof fn lemma_changes_credited_to_author(files: Seq<Seq<char>>, cs: Seq<CommitView>, k: int, q: int, n: Seq<char>)
    requires
        0 <= k < cs.len(),
        0 <= q < cs[k].files.len(),
        cs[k].files[q].recent == Some(n),
        files.contains(n),
        cs[k].author.name.len() > 0 || cs[k].author.email.len() > 0,
        !(cs[k].files[q].change is Deleted),
    ensures
        exists|i: int| #![trigger with_commits(initial_doa(files), cs)[i]]
            0 <= i < with_commits(initial_doa(files), cs).len()
            && with_commits(initial_doa(files), cs)[i].name == n
            && exists|j: int| #![trigger with_commits(initial_doa(files), cs)[i].authorships[j]]
                0 <= j < with_commits(initial_doa(files), cs)[i].authorships.len()
                && with_commits(initial_doa(files), cs)[i].authorships[j].author == cs[k].author
                && (if cs[k].files[q].change is Added {
                    with_commits(initial_doa(files), cs)[i].authorships[j].added
                } else {
                    with_commits(initial_doa(files), cs)[i].authorships[j].deliveries.contains(
                        DeliveryView { commit: cs[k].hash, timestamp: cs[k].committer_date },
                    )
                }),
{
    let init = initial_doa(files);
    let c = cs[k];
    let a = c.author;
    let f = c.files[q];
    let fs = c.files;
    vstd::seq_lib::seq_to_set_is_finite(files);
    crate::text::lemma_sorted_list_exists(files.to_set());
    let names = sorted_list(files.to_set());
    assert(names.to_set().contains(n));
    let w = choose|w: int| 0 <= w < names.len() && names[w] == n;
    assert(init[w].name == n);
    // the state before commit k
    let before = with_commits(init, cs.take(k));
    lemma_with_commits_names(init, cs.take(k));
    assert(before[w].name == n);
    assert(cs.take(k + 1).drop_last() =~= cs.take(k));
    assert(cs.take(k + 1).last() == c);
    assert(main_author(c) == Some(a));
    let after_k = with_commits(init, cs.take(k + 1));
    assert(after_k == with_changes(before, a, c, fs));
    // the changes of commit k before change q
    let prev = with_changes(before, a, c, fs.take(q));
    lemma_with_changes_names(before, a, c, fs.take(q));
    assert(prev[w].name == n);
    assert(has_file(prev, n));
    let i = file_pos(prev, n);
    assert(fs.take(q + 1).drop_last() =~= fs.take(q));
    assert(fs.take(q + 1).last() == f);
    let mid = with_changes(before, a, c, fs.take(q + 1));
    assert(mid == prev.update(i, with_change(prev[i], a, c, f)));
    lemma_change_credits(prev[i], a, c, f);
    assert(credits(mid[i], a, c, f));
    assert(mid[i].name == n);
    lemma_changes_grow(before, a, c, fs, q + 1);
    assert(file_grows(mid[i], after_k[i]));
    lemma_credits_grow(mid[i], after_k[i], a, c, f);
    lemma_commits_grow(init, cs, k + 1);
    let r = with_commits(init, cs);
    assert(file_grows(after_k[i], r[i]));
    lemma_credits_grow(after_k[i], r[i], a, c, f);
    let j = choose|j: int| #![trigger r[i].authorships[j]]
        0 <= j < r[i].authorships.len() && r[i].authorships[j].author == a && (if f.change is Added {
            r[i].authorships[j].added
        } else {
            r[i].authorships[j].deliveries.contains(DeliveryView { commit: c.hash, timestamp: c.committer_date })
        });
    assert(r[i].name == n);
    assert(r[i].authorships[j].author == a);
}

} // verus!
