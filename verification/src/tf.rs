//! The truck factor: how many of the main authors must leave before more
//! than half of the files lose every author.
use vstd::prelude::*;
use crate::doa::{DoaFile, DoaFileView, doa_views};
use crate::git::{AuthorInfo, AuthorView};
use crate::text::{chars_of, sorted_unique, views};

verus! {

/// The files associated with an author, and whether the author is still
/// counted in the truck factor calculation.
#[derive(Debug, Clone)]
pub struct AuthorFiles {
    pub files: Vec<DoaFile>,
    pub included: bool,
}

pub struct AuthorFilesView {
    pub files: Seq<DoaFileView>,
    pub included: bool,
}

impl View for AuthorFiles {
    type V = AuthorFilesView;

    open spec fn view(&self) -> AuthorFilesView {
        AuthorFilesView { files: doa_views(self.files@), included: self.included }
    }
}

/// One author with the files the author is a main author of.
pub struct CoverageView {
    pub author: AuthorView,
    pub files: Seq<DoaFileView>,
    pub included: bool,
}

pub open spec fn coverage_views(m: Seq<(AuthorInfo, AuthorFiles)>) -> Seq<CoverageView> {
    m.map_values(|e: (AuthorInfo, AuthorFiles)| CoverageView { author: e.0@, files: e.1@.files, included: e.1@.included })
}

/// Some entry of `m` is `a`'s.
pub open spec fn has_entry(m: Seq<CoverageView>, a: AuthorView) -> bool {
    exists|i: int| 0 <= i < m.len() && #[trigger] m[i].author == a
}

pub open spec fn entry_pos(m: Seq<CoverageView>, a: AuthorView) -> int {
    choose|i: int| 0 <= i < m.len() && #[trigger] m[i].author == a
}

/// The map after file `f` is credited to `a`: appended to `a`'s files, or
/// `a` comes last with this one file.
pub open spec fn credit(m: Seq<CoverageView>, a: AuthorView, f: DoaFileView) -> Seq<CoverageView> {
    if has_entry(m, a) {
        let i = entry_pos(m, a);
        m.update(i, CoverageView { files: m[i].files.push(f), ..m[i] })
    } else {
        m.push(CoverageView { author: a, files: seq![f], included: true })
    }
}

/// The map after file `f` is credited to each of the authors `authors` in turn.
pub open spec fn credit_all(m: Seq<CoverageView>, authors: Seq<AuthorView>, f: DoaFileView) -> Seq<CoverageView>
    decreases authors.len(),
{
    if authors.len() == 0 {
        m
    } else {
        credit(credit_all(m, authors.drop_last(), f), authors.last(), f)
    }
}

/// Each author with the files credited to it: file `i` of `files` goes to
/// each of the authors `file_authors[i]`.
pub open spec fn authors_map_spec(files: Seq<DoaFileView>, file_authors: Seq<Seq<AuthorView>>) -> Seq<CoverageView>
    decreases files.len(),
{
    if files.len() == 0 {
        Seq::empty()
    } else {
        let n = files.len() - 1;
        credit_all(authors_map_spec(files.drop_last(), file_authors.take(n)), file_authors[n], files[n])
    }
}

/// No two entries share an author.
pub open spec fn authors_distinct(m: Seq<CoverageView>) -> bool {
    forall|i: int, j: int| 0 <= i < m.len() && 0 <= j < m.len() && i != j ==> #[trigger] m[i].author != #[trigger] m[j].author
}

pub open spec fn author_list_views(v: Seq<AuthorInfo>) -> Seq<AuthorView> {
    v.map_values(|a: AuthorInfo| a@)
}

pub open spec fn nested_author_views(v: Seq<Vec<AuthorInfo>>) -> Seq<Seq<AuthorView>> {
    v.map_values(|x: Vec<AuthorInfo>| author_list_views(x@))
}

fn same_author(a: &AuthorInfo, b: &AuthorInfo) -> (r: bool)
    ensures
        r == (a@ == b@),
{
    a.name == b.name && a.email == b.email
}

fn clone_author(a: &AuthorInfo) -> (r: AuthorInfo)
    ensures
        r@ == a@,
{
    AuthorInfo { name: a.name.clone(), email: a.email.clone() }
}

impl AuthorFiles {
    fn new() -> (r: AuthorFiles)
        ensures
            r@.files == Seq::<DoaFileView>::empty(),
            r@.included,
    {
        let r = AuthorFiles { files: Vec::new(), included: true };
        assert(r@.files =~= Seq::<DoaFileView>::empty());
        r
    }
}

fn credit_file(m: &mut Vec<(AuthorInfo, AuthorFiles)>, a: &AuthorInfo, f: &DoaFile)
    requires
        authors_distinct(coverage_views(old(m)@)),
    ensures
        authors_distinct(coverage_views(final(m)@)),
        coverage_views(final(m)@) == credit(coverage_views(old(m)@), a@, f@),
{
    let ghost mv = coverage_views(m@);
    let mut i: usize = 0;
    while i < m.len()
        invariant
            i <= m@.len(),
            mv == coverage_views(m@),
            mv == coverage_views(old(m)@),
            authors_distinct(mv),
            forall|j: int| 0 <= j < i ==> (#[trigger] mv[j]).author != a@,
        decreases m.len() - i,
    {
        if same_author(&m[i].0, a) {
            assert(mv[i as int].author == a@);
            let ghost p = entry_pos(mv, a@);
            assert(0 <= p < mv.len() && mv[p].author == a@);
            let d = f.duplicate();
            m[i].1.files.push(d);
            assert forall|a1: int, b1: int| 0 <= a1 < m@.len() && 0 <= b1 < m@.len() && a1 != b1 implies #[trigger] coverage_views(m@)[a1].author != #[trigger] coverage_views(m@)[b1].author by {
                assert(coverage_views(m@)[a1].author == mv[a1].author);
                assert(coverage_views(m@)[b1].author == mv[b1].author);
            };
            assert(coverage_views(m@)[i as int].files =~= mv[i as int].files.push(f@));
            assert(coverage_views(m@) =~= mv.update(i as int, CoverageView { files: mv[i as int].files.push(f@), ..mv[i as int] }));
            assert(p == i);
            return;
        }
        i = i + 1;
    }
    let mut entry = AuthorFiles::new();
    entry.files.push(f.duplicate());
    assert(entry@.files =~= seq![f@]);
    m.push((clone_author(a), entry));
    assert(coverage_views(m@) =~= mv.push(CoverageView { author: a@, files: seq![f@], included: true }));
}

/// Credits each file to each of its main authors, `file_authors[i]` being the
/// main authors of `files[i]`.
pub fn get_authors_map(files: &[DoaFile], file_authors: &Vec<Vec<AuthorInfo>>) -> (m: Vec<(AuthorInfo, AuthorFiles)>)
    requires
        files@.len() == file_authors@.len(),
    ensures
        authors_distinct(coverage_views(m@)),
        coverage_views(m@) == authors_map_spec(doa_views(files@), nested_author_views(file_authors@)),
{
    let ghost fv = doa_views(files@);
    let ghost av = nested_author_views(file_authors@);
    let mut m: Vec<(AuthorInfo, AuthorFiles)> = Vec::new();
    let mut i: usize = 0;
    assert(coverage_views(m@) =~= Seq::<CoverageView>::empty());
    while i < files.len()
        invariant
            i <= files@.len(),
            files@.len() == file_authors@.len(),
            fv == doa_views(files@),
            av == nested_author_views(file_authors@),
            authors_distinct(coverage_views(m@)),
            coverage_views(m@) == authors_map_spec(fv.take(i as int), av.take(i as int)),
        decreases files.len() - i,
    {
        let authors = &file_authors[i];
        let ghost base = coverage_views(m@);
        let ghost al = av[i as int];
        assert(al == author_list_views(authors@));
        let mut k: usize = 0;
        while k < authors.len()
            invariant
                k <= authors@.len(),
                i < files@.len(),
                al == author_list_views(authors@),
                authors_distinct(coverage_views(m@)),
                coverage_views(m@) == credit_all(base, al.take(k as int), files@[i as int]@),
            decreases authors.len() - k,
        {
            assert(al.take(k + 1).drop_last() =~= al.take(k as int));
            assert(al.take(k + 1).last() == authors@[k as int]@);
            credit_file(&mut m, &authors[k], &files[i]);
            k = k + 1;
        }
        assert(al.take(authors.len() as int) =~= al);
        assert(fv.take(i + 1).drop_last() =~= fv.take(i as int));
        assert(av.take(i + 1).take(i as int) =~= av.take(i as int));
        assert(fv.take(i + 1)[i as int] == files@[i as int]@);
        assert(av.take(i + 1)[i as int] == al);
        i = i + 1;
    }
    assert(fv.take(files.len() as int) =~= fv);
    assert(av.take(files.len() as int) =~= av);
    m
}


/// The number of authors still counted.
pub open spec fn included_count(m: Seq<CoverageView>) -> nat
    decreases m.len(),
{
    if m.len() == 0 {
        0
    } else {
        included_count(m.drop_last()) + (if m.last().included { 1nat } else { 0nat })
    }
}

/// The names of the files that some counted author is a main author of.
pub open spec fn covered_names(m: Seq<CoverageView>) -> Set<Seq<char>> {
    Set::new(|n: Seq<char>| exists|i: int, k: int|
        0 <= i < m.len() && m[i].included && 0 <= k < m[i].files.len() && #[trigger] m[i].files[k].name == n)
}

/// Less than half of the `total` files are covered: the coverage is below the
/// threshold of one half.
pub open spec fn below_half(covered: int, total: int) -> bool {
    2 * covered < total
}

/// Entry `i` is the counted author with the most files, the last such one.
pub open spec fn is_largest(m: Seq<CoverageView>, i: int) -> bool {
    &&& 0 <= i < m.len()
    &&& m[i].included
    &&& forall|j: int| 0 <= j < m.len() && #[trigger] m[j].included ==> m[j].files.len() <= m[i].files.len()
    &&& forall|j: int| i < j < m.len() && #[trigger] m[j].included ==> m[j].files.len() < m[i].files.len()
}

/// The map once the counted author with the most files is no longer counted.
pub open spec fn without_largest(m: Seq<CoverageView>) -> Seq<CoverageView> {
    if exists|i: int| is_largest(m, i) {
        let i = choose|i: int| is_largest(m, i);
        m.update(i, CoverageView { included: false, ..m[i] })
    } else {
        m
    }
}

/// The greedy truck factor run: stop with the count `tf` of authors removed
/// so far once less than half of the `total` files are covered or no author
/// is counted any more, else remove the author with the most files.
pub open spec fn truck_run(m: Seq<CoverageView>, total: int, tf: nat, fuel: nat) -> (nat, Seq<CoverageView>)
    decreases fuel,
{
    if fuel == 0 || included_count(m) == 0 {
        (tf, m)
    } else if below_half(covered_names(m).len() as int, total) {
        (tf, m)
    } else {
        truck_run(without_largest(m), total, tf + 1, (fuel - 1) as nat)
    }
}

proof fn lemma_included_count_bound(m: Seq<CoverageView>)
    ensures
        included_count(m) <= m.len(),
    decreases m.len(),
{
    if m.len() > 0 {
        lemma_included_count_bound(m.drop_last());
    }
}

proof fn lemma_included_count_exclude(m: Seq<CoverageView>, i: int)
    requires
        0 <= i < m.len(),
        m[i].included,
    ensures
        included_count(m.update(i, CoverageView { included: false, ..m[i] })) + 1 == included_count(m),
    decreases m.len(),
{
    let u = m.update(i, CoverageView { included: false, ..m[i] });
    if i < m.len() - 1 {
        assert(u.drop_last() =~= m.drop_last().update(i, CoverageView { included: false, ..m[i] }));
        lemma_included_count_exclude(m.drop_last(), i);
    } else {
        assert(u.drop_last() =~= m.drop_last());
    }
}

proof fn lemma_largest_unique(m: Seq<CoverageView>, i: int, j: int)
    requires
        is_largest(m, i),
        is_largest(m, j),
    ensures
        i == j,
{
    if i < j {
        assert(m[j].files.len() < m[i].files.len());
    } else if j < i {
        assert(m[i].files.len() < m[j].files.len());
    }
}

/// The number of authors still counted.
pub fn included_size(m: &Vec<(AuthorInfo, AuthorFiles)>) -> (r: usize)
    ensures
        r == included_count(coverage_views(m@)),
{
    let ghost mv = coverage_views(m@);
    let mut r: usize = 0;
    let mut i: usize = 0;
    while i < m.len()
        invariant
            i <= m@.len(),
            mv == coverage_views(m@),
            r == included_count(mv.take(i as int)),
            r <= i,
        decreases m.len() - i,
    {
        assert(mv.take(i + 1).drop_last() =~= mv.take(i as int));
        if m[i].1.included {
            r = r + 1;
        }
        i = i + 1;
    }
    assert(mv.take(m.len() as int) =~= mv);
    r
}

/// The number of files that some counted author is a main author of.
pub fn get_coverage(m: &Vec<(AuthorInfo, AuthorFiles)>) -> (r: usize)
    ensures
        r == covered_names(coverage_views(m@)).len(),
{
    let ghost mv = coverage_views(m@);
    let mut names: Vec<Vec<char>> = Vec::new();
    let mut i: usize = 0;
    while i < m.len()
        invariant
            i <= m@.len(),
            mv == coverage_views(m@),
            forall|n: Seq<char>| #[trigger] views(names@).contains(n) <==> exists|a: int, k: int|
                0 <= a < i && mv[a].included && 0 <= k < mv[a].files.len() && #[trigger] mv[a].files[k].name == n,
        decreases m.len() - i,
    {
        if m[i].1.included {
            let fs = &m[i].1.files;
            let mut k: usize = 0;
            while k < fs.len()
                invariant
                    i < m@.len(),
                    k <= fs@.len(),
                    mv == coverage_views(m@),
                    fs@ == m@[i as int].1.files@,
                    mv[i as int].included,
                    forall|n: Seq<char>| #[trigger] views(names@).contains(n) <==> (exists|a: int, q: int|
                        0 <= a < i && mv[a].included && 0 <= q < mv[a].files.len() && #[trigger] mv[a].files[q].name == n)
                        || (exists|q: int| 0 <= q < k && #[trigger] mv[i as int].files[q].name == n),
                decreases fs.len() - k,
            {
                let ghost before = views(names@);
                let c = chars_of(fs[k].name.as_str());
                assert(mv[i as int].files[k as int].name == c@);
                names.push(c);
                assert(views(names@) =~= before.push(c@));
                assert forall|n: Seq<char>| #[trigger] views(names@).contains(n) <==> (exists|a: int, q: int|
                    0 <= a < i && mv[a].included && 0 <= q < mv[a].files.len() && #[trigger] mv[a].files[q].name == n)
                    || (exists|q: int| 0 <= q < k + 1 && #[trigger] mv[i as int].files[q].name == n) by {
                    if views(names@).contains(n) {
                        let t = choose|t: int| 0 <= t < views(names@).len() && views(names@)[t] == n;
                        if t < before.len() {
                            assert(before[t] == n);
                            assert(before.contains(n));
                        }
                    }
                    if exists|q: int| 0 <= q < k + 1 && #[trigger] mv[i as int].files[q].name == n {
                        let q = choose|q: int| 0 <= q < k + 1 && #[trigger] mv[i as int].files[q].name == n;
                        if q < k {
                            assert(before.contains(n));
                            let t = choose|t: int| 0 <= t < before.len() && before[t] == n;
                            assert(views(names@)[t] == n);
                        } else {
                            assert(views(names@)[before.len() as int] == n);
                        }
                    }
                    if exists|a: int, q: int|
                        0 <= a < i && mv[a].included && 0 <= q < mv[a].files.len() && #[trigger] mv[a].files[q].name == n {
                        assert(before.contains(n));
                        let t = choose|t: int| 0 <= t < before.len() && before[t] == n;
                        assert(views(names@)[t] == n);
                    }
                };
                k = k + 1;
            }
            assert forall|n: Seq<char>| #[trigger] views(names@).contains(n) <==> exists|a: int, q: int|
                0 <= a < i + 1 && mv[a].included && 0 <= q < mv[a].files.len() && #[trigger] mv[a].files[q].name == n by {
                if exists|a: int, q: int| 0 <= a < i + 1 && mv[a].included && 0 <= q < mv[a].files.len() && #[trigger] mv[a].files[q].name == n {
                    let (a, q) = choose|a: int, q: int| 0 <= a < i + 1 && mv[a].included && 0 <= q < mv[a].files.len() && #[trigger] mv[a].files[q].name == n;
                    if a == i {
                        assert(mv[i as int].files[q].name == n);
                    }
                }
            };
        } else {
            assert forall|n: Seq<char>| #[trigger] views(names@).contains(n) <==> exists|a: int, q: int|
                0 <= a < i + 1 && mv[a].included && 0 <= q < mv[a].files.len() && #[trigger] mv[a].files[q].name == n by {
                if exists|a: int, q: int| 0 <= a < i + 1 && mv[a].included && 0 <= q < mv[a].files.len() && #[trigger] mv[a].files[q].name == n {
                    let (a, q) = choose|a: int, q: int| 0 <= a < i + 1 && mv[a].included && 0 <= q < mv[a].files.len() && #[trigger] mv[a].files[q].name == n;
                    assert(a != i);
                }
            };
        }
        i = i + 1;
    }
    let unique = sorted_unique(&names);
    let ghost uv = views(unique@);
    assert(uv.to_set() =~= covered_names(mv)) by {
        assert forall|n: Seq<char>| uv.to_set().contains(n) <==> covered_names(mv).contains(n) by {
            assert(uv.to_set().contains(n) <==> views(names@).to_set().contains(n));
        };
    };
    proof {
        assert forall|a: int, b: int| 0 <= a < uv.len() && 0 <= b < uv.len() && a != b implies uv[a] != uv[b] by {
            if a < b {
                assert(crate::text::lex_lt(uv[a], uv[b]));
                crate::text::lemma_lex_irreflexive(uv[a]);
            } else {
                assert(crate::text::lex_lt(uv[b], uv[a]));
                crate::text::lemma_lex_irreflexive(uv[b]);
            }
        };
        assert(uv.no_duplicates());
        uv.unique_seq_to_set();
    }
    unique.len()
}

proof fn lemma_none_included(m: Seq<CoverageView>)
    requires
        forall|j: int| 0 <= j < m.len() ==> !(#[trigger] m[j]).included,
    ensures
        included_count(m) == 0,
    decreases m.len(),
{
    if m.len() > 0 {
        lemma_none_included(m.drop_last());
    }
}

/// Stops counting the counted author with the most files (the last of them
/// on a tie).
pub fn exclude_largest(m: &mut Vec<(AuthorInfo, AuthorFiles)>)
    ensures
        coverage_views(final(m)@) == without_largest(coverage_views(old(m)@)),
        (exists|c: int| is_largest(coverage_views(old(m)@), c)) || included_count(coverage_views(old(m)@)) == 0,
        final(m)@.len() == old(m)@.len(),
        forall|i: int| 0 <= i < old(m)@.len() ==> (#[trigger] final(m)@[i]).0 == old(m)@[i].0,
{
    let ghost mv = coverage_views(m@);
    let mut best: Option<usize> = None;
    let mut i: usize = 0;
    while i < m.len()
        invariant
            i <= m@.len(),
            mv == coverage_views(m@),
            match best {
                Some(b) => {
                    &&& b < i
                    &&& mv[b as int].included
                    &&& forall|j: int| 0 <= j < i && #[trigger] mv[j].included ==> mv[j].files.len() <= mv[b as int].files.len()
                    &&& forall|j: int| b < j < i && #[trigger] mv[j].included ==> mv[j].files.len() < mv[b as int].files.len()
                },
                None => forall|j: int| 0 <= j < i ==> !(#[trigger] mv[j]).included,
            },
        decreases m.len() - i,
    {
        assert(mv[i as int].included == m@[i as int].1.included);
        assert(mv[i as int].files.len() == m@[i as int].1.files@.len());
        if m[i].1.included {
            match best {
                Some(b) => {
                    assert(mv[b as int].files.len() == m@[b as int].1.files@.len());
                    if m[i].1.files.len() >= m[b].1.files.len() {
                        best = Some(i);
                    }
                },
                None => {
                    best = Some(i);
                },
            }
        }
        i = i + 1;
    }
    match best {
        Some(b) => {
            assert(is_largest(mv, b as int));
            let ghost c = choose|c: int| is_largest(mv, c);
            proof {
                lemma_largest_unique(mv, c, b as int);
            }
            m[b].1.included = false;
            assert(coverage_views(m@) =~= mv.update(b as int, CoverageView { included: false, ..mv[b as int] }));
        },
        None => {
            proof {
                lemma_none_included(mv);
            }
            assert(!exists|c: int| is_largest(mv, c));
        },
    }
}

/// The truck factor of the files, `file_authors[i]` being the main authors of
/// `files[i]`: the number of authors removed, those with the most files first,
/// until less than half of the files keep a counted main author (or no author
/// is left), with every author's files and whether it is still counted.
pub fn calculate_truck_factor(files: &[DoaFile], file_authors: &Vec<Vec<AuthorInfo>>) -> (r: (u64, Vec<(AuthorInfo, AuthorFiles)>))
    requires
        files@.len() == file_authors@.len(),
    ensures
        ({
            let m0 = authors_map_spec(doa_views(files@), nested_author_views(file_authors@));
            let run = truck_run(m0, files@.len() as int, 0, m0.len());
            &&& r.0 == run.0
            &&& coverage_views(r.1@) == run.1
        }),
{
    let mut m = get_authors_map(files, file_authors);
    let ghost m0 = coverage_views(m@);
    let ghost len = m0.len();
    let total = files.len();
    let mut tf: u64 = 0;
    proof {
        lemma_included_count_bound(m0);
    }
    while included_size(&m) > 0
        invariant
            m@.len() == len,
            len == m0.len(),
            m0 == authors_map_spec(doa_views(files@), nested_author_views(file_authors@)),
            total == files@.len(),
            tf <= len,
            included_count(coverage_views(m@)) + tf <= len,
            truck_run(m0, total as int, 0, len) == truck_run(coverage_views(m@), total as int, tf as nat, (len - tf) as nat),
        decreases len - tf,
    {
        let covered = get_coverage(&m);
        if (covered as u128) * 2 < (total as u128) {
            assert(below_half(covered_names(coverage_views(m@)).len() as int, total as int));
            assert(truck_run(coverage_views(m@), total as int, tf as nat, (len - tf) as nat) == (tf as nat, coverage_views(m@)));
            return (tf, m);
        }
        let ghost before = coverage_views(m@);
        assert(tf < len);
        assert(!below_half(covered_names(before).len() as int, total as int));
        assert(truck_run(before, total as int, tf as nat, (len - tf) as nat) == truck_run(without_largest(before), total as int, (tf + 1) as nat, (len - tf - 1) as nat));
        exclude_largest(&mut m);
        proof {
            let c = choose|c: int| is_largest(before, c);
            lemma_included_count_exclude(before, c);
        }
        let cur_len = m.len();
        assert(tf < cur_len);
        tf = tf + 1;
    }
    assert(truck_run(coverage_views(m@), total as int, tf as nat, (len - tf) as nat) == (tf as nat, coverage_views(m@)));
    (tf, m)
}


proof fn lemma_zero_count_none_included(m: Seq<CoverageView>)
    requires
        included_count(m) == 0,
    ensures
        forall|j: int| 0 <= j < m.len() ==> !(#[trigger] m[j]).included,
    decreases m.len(),
{
    if m.len() > 0 {
        lemma_zero_count_none_included(m.drop_last());
        assert forall|j: int| 0 <= j < m.len() implies !(#[trigger] m[j]).included by {
            if j < m.len() - 1 {
                assert(m[j] == m.drop_last()[j]);
            }
        };
    }
}

/// While some author is counted, one of them has the most files.
pub proof fn lemma_largest_exists(m: Seq<CoverageView>)
    requires
        included_count(m) > 0,
    ensures
        exists|i: int| is_largest(m, i),
    decreases m.len(),
{
    let n = m.len() - 1;
    let p = m.drop_last();
    if included_count(p) == 0 {
        lemma_zero_count_none_included(p);
        assert forall|j: int| 0 <= j < m.len() && #[trigger] m[j].included implies m[j].files.len() <= m[n].files.len() by {
            if j < n {
                assert(m[j] == p[j]);
            }
        };
        assert(is_largest(m, n));
    } else {
        lemma_largest_exists(p);
        let i = choose|i: int| is_largest(p, i);
        assert(p[i] == m[i]);
        if m[n].included && m[n].files.len() >= m[i].files.len() {
            assert forall|j: int| 0 <= j < m.len() && #[trigger] m[j].included implies m[j].files.len() <= m[n].files.len() by {
                if j < n {
                    assert(m[j] == p[j]);
                }
            };
            assert(is_largest(m, n));
        } else {
            assert forall|j: int| 0 <= j < m.len() && #[trigger] m[j].included implies m[j].files.len() <= m[i].files.len() by {
                if j < n {
                    assert(m[j] == p[j]);
                }
            };
            assert forall|j: int| i < j < m.len() && #[trigger] m[j].included implies m[j].files.len() < m[i].files.len() by {
                if j < n {
                    assert(m[j] == p[j]);
                }
            };
            assert(is_largest(m, i));
        }
    }
}

proof fn lemma_truck_run(m: Seq<CoverageView>, total: int, tf: nat, fuel: nat)
    requires
        included_count(m) <= fuel,
    ensures
        ({
            let run = truck_run(m, total, tf, fuel);
            &&& run.1.len() == m.len()
            &&& run.0 >= tf
            &&& included_count(run.1) + run.0 == included_count(m) + tf
            &&& below_half(covered_names(run.1).len() as int, total) || included_count(run.1) == 0
        }),
    decreases fuel,
{
    if fuel == 0 || included_count(m) == 0 {
    } else if below_half(covered_names(m).len() as int, total) {
    } else {
        lemma_largest_exists(m);
        let c = choose|c: int| is_largest(m, c);
        lemma_included_count_exclude(m, c);
        lemma_truck_run(without_largest(m), total, tf + 1, (fuel - 1) as nat);
    }
}

proof fn lemma_nobody_covers(m: Seq<CoverageView>)
    requires
        included_count(m) == 0,
    ensures
        covered_names(m).len() == 0,
{
    lemma_zero_count_none_included(m);
    assert(covered_names(m) =~= Set::<Seq<char>>::empty()) by {
        assert forall|n: Seq<char>| !covered_names(m).contains(n) by {
            if covered_names(m).contains(n) {
                let (i, k) = choose|i: int, k: int|
                    0 <= i < m.len() && m[i].included && 0 <= k < m[i].files.len() && #[trigger] m[i].files[k].name == n;
            }
        };
    };
}

/// The truck factor never exceeds the number of authors; exactly that many
/// authors are no longer counted afterwards; and afterwards less than half of
/// the files keep a counted main author, or (only where there are no files)
/// no author is counted.
pub proof fn lemma_truck_factor_bounds(m: Seq<CoverageView>, total: int)
    ensures
        ({
            let run = truck_run(m, total, 0, m.len());
            &&& run.0 <= included_count(m)
            &&& included_count(run.1) + run.0 == included_count(m)
            &&& below_half(covered_names(run.1).len() as int, total) || included_count(run.1) == 0
            &&& total > 0 ==> below_half(covered_names(run.1).len() as int, total)
        }),
{
    lemma_included_count_bound(m);
    lemma_truck_run(m, total, 0, m.len());
    let run = truck_run(m, total, 0, m.len());
    if included_count(run.1) == 0 {
        lemma_nobody_covers(run.1);
    }
}

/// The map after `i` greedy removals, each of the counted author with the most files.
pub open spec fn greedy(m: Seq<CoverageView>, i: nat) -> Seq<CoverageView>
    decreases i,
{
    if i == 0 {
        m
    } else {
        greedy(without_largest(m), (i - 1) as nat)
    }
}

proof fn lemma_truck_run_first_drop(m: Seq<CoverageView>, total: int, tf: nat, fuel: nat)
    requires
        included_count(m) <= fuel,
    ensures
        ({
            let run = truck_run(m, total, tf, fuel);
            &&& run.0 >= tf
            &&& run.1 == greedy(m, (run.0 - tf) as nat)
            &&& forall|i: nat| i < run.0 - tf ==> included_count(#[trigger] greedy(m, i)) > 0
                && !below_half(covered_names(greedy(m, i)).len() as int, total)
        }),
    decreases fuel,
{
    let run = truck_run(m, total, tf, fuel);
    if fuel == 0 || included_count(m) == 0 {
        assert(greedy(m, 0) == m);
    } else if below_half(covered_names(m).len() as int, total) {
        assert(greedy(m, 0) == m);
    } else {
        lemma_largest_exists(m);
        let c = choose|c: int| is_largest(m, c);
        lemma_included_count_exclude(m, c);
        let w = without_largest(m);
        assert(included_count(w) + 1 == included_count(m));
        lemma_truck_run_first_drop(w, total, tf + 1, (fuel - 1) as nat);
        assert(run == truck_run(w, total, tf + 1, (fuel - 1) as nat));
        assert(greedy(m, 0) == m);
        assert(greedy(m, (run.0 - tf) as nat) == greedy(w, (run.0 - tf - 1) as nat));
        assert forall|i: nat| i < run.0 - tf implies included_count(#[trigger] greedy(m, i)) > 0
            && !below_half(covered_names(greedy(m, i)).len() as int, total) by {
            if i > 0 {
                assert(greedy(m, i) == greedy(w, (i - 1) as nat));
            }
        };
    }
}

/// The truck factor is the first number of greedy removals (each of the
/// counted author with the most files) after which less than half of the
/// files keep a counted main author, or nobody is counted: the resulting map
/// is the one after that many removals, and every smaller number of removals
/// left some author counted and at least half of the files covered.
pub proof fn lemma_truck_factor_first_drop(m: Seq<CoverageView>, total: int)
    ensures
        ({
            let run = truck_run(m, total, 0, m.len());
            &&& run.1 == greedy(m, run.0)
            &&& forall|i: nat| i < run.0 ==> included_count(#[trigger] greedy(m, i)) > 0
                && !below_half(covered_names(greedy(m, i)).len() as int, total)
        }),
{
    lemma_included_count_bound(m);
    lemma_truck_run_first_drop(m, total, 0, m.len());
}

} // verus!
