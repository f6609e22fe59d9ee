//! Commit records, the parsers for the text that `git` prints, and the
//! operations on a repository's history: rename tracing and alias merging.
use vstd::prelude::*;


pub use crate::alias::{
    find_unique_authors, is_similar, merge_alias_authors, merge_author_cluster,
    reduce_overlapping_strings,
};
pub use crate::rename::assign_recent_names;
use crate::text::{
    decimal, free_of, is_ws, join_seq, lemma_decimal_no_ws, lemma_join_free_of, lemma_parse_decimal,
    lemma_split_join, lemma_tokens_join, lemma_trim_quoted, no_ws, chars_of, lines_of, lines_vec, lower_seq, lower_vec, parse_u64, parse_u64_spec, split_by,
    split_seq, split_whitespace_vec, starts_with_vec, string_of, sub_vec, trim_char, trim_char_vec,
    views, ws_tokens,
};

verus! {

/// A local Git repository, by its path.
pub struct Repo<'a> {
    pub path: &'a str,
}

/// A person as git records them: a name and an e-mail address.
#[derive(Debug, Clone, PartialEq, Eq, Hash)]
pub struct AuthorInfo {
    pub name: String,
    pub email: String,
}

/// The view of an [`AuthorInfo`]: its name and its e-mail address.
pub struct AuthorView {
    pub name: Seq<char>,
    pub email: Seq<char>,
}

impl View for AuthorInfo {
    type V = AuthorView;

    open spec fn view(&self) -> AuthorView {
        AuthorView { name: self.name@, email: self.email@ }
    }
}

/// How a commit touched a file.
#[derive(Debug, Clone, PartialEq, Eq, Hash)]
pub enum ChangeType {
    Added,
    Modified,
    Deleted,
    /// Renamed from the name it holds.
    Renamed(String),
}

/// The view of a [`ChangeType`].
pub enum ChangeKind {
    Added,
    Modified,
    Deleted,
    Renamed(Seq<char>),
}

impl View for ChangeType {
    type V = ChangeKind;

    open spec fn view(&self) -> ChangeKind {
        match self {
            ChangeType::Added => ChangeKind::Added,
            ChangeType::Modified => ChangeKind::Modified,
            ChangeType::Deleted => ChangeKind::Deleted,
            ChangeType::Renamed(old) => ChangeKind::Renamed(old@),
        }
    }
}

/// One file that a commit touched.
#[derive(Debug, Clone)]
pub struct CommitFileInfo {
    pub file_name: String,
    pub change_type: ChangeType,
    /// The name the file has today, once rename tracing has found it.
    pub recent_file_name: Option<String>,
}

/// The view of a [`CommitFileInfo`].
pub struct FileChangeView {
    pub file_name: Seq<char>,
    pub change: ChangeKind,
    pub recent: Option<Seq<char>>,
}

pub open spec fn opt_view(o: Option<String>) -> Option<Seq<char>> {
    match o {
        Some(s) => Some(s@),
        None => None,
    }
}

impl View for CommitFileInfo {
    type V = FileChangeView;

    open spec fn view(&self) -> FileChangeView {
        FileChangeView {
            file_name: self.file_name@,
            change: self.change_type@,
            recent: opt_view(self.recent_file_name),
        }
    }
}

/// One commit of the history.
#[derive(Debug, Clone)]
pub struct CommitInfo {
    pub hash: String,
    pub author: AuthorInfo,
    pub author_date: u64,
    pub committer: AuthorInfo,
    pub committer_date: u64,
    pub message: String,
    pub files: Vec<CommitFileInfo>,
}

/// The view of a [`CommitInfo`].
pub struct CommitView {
    pub hash: Seq<char>,
    pub author: AuthorView,
    pub author_date: u64,
    pub committer: AuthorView,
    pub committer_date: u64,
    pub message: Seq<char>,
    pub files: Seq<FileChangeView>,
}

impl View for CommitInfo {
    type V = CommitView;

    open spec fn view(&self) -> CommitView {
        CommitView {
            hash: self.hash@,
            author: self.author@,
            author_date: self.author_date,
            committer: self.committer@,
            committer_date: self.committer_date,
            message: self.message@,
            files: self.files@.map_values(|f: CommitFileInfo| f@),
        }
    }
}

/// A person counts as given when the name or the e-mail address is not empty.
pub open spec fn is_given(a: AuthorView) -> bool {
    a.name.len() > 0 || a.email.len() > 0
}

/// The person a commit is credited to: the author, else the committer, else nobody.
pub open spec fn main_author(c: CommitView) -> Option<AuthorView> {
    if is_given(c.author) {
        Some(c.author)
    } else if is_given(c.committer) {
        Some(c.committer)
    } else {
        None
    }
}

impl CommitInfo {
    /// Returns the main author of the commit, falling back to the committer.
    pub fn get_main_author(&self) -> (r: Option<&AuthorInfo>)
        ensures
            r == (if is_given(self.author@) {
                Some(&self.author)
            } else if is_given(self.committer@) {
                Some(&self.committer)
            } else {
                None
            }),
    {
        if !self.author.email.as_str().is_empty() || !self.author.name.as_str().is_empty() {
            Some(&self.author)
        } else if !self.committer.email.as_str().is_empty()
            || !self.committer.name.as_str().is_empty() {
            Some(&self.committer)
        } else {
            None
        }
    }
}


/// The separator between the fields of one line of the commit log.
pub open spec fn field_sep() -> Seq<char> {
    seq!['-', ';', '-']
}

/// The fields of one line of the commit log: the line without its
/// surrounding quotes, split at each `-;-`.
pub open spec fn log_fields(entry: Seq<char>) -> Seq<Seq<char>> {
    split_seq(trim_char(entry, '"'), field_sep())
}

/// A number field of the log: its value, or 0 where it is no number.
pub open spec fn number_or_zero(s: Seq<char>) -> u64 {
    match parse_u64_spec(s) {
        Some(v) => v,
        None => 0,
    }
}

/// The commit that eight log fields describe, names and addresses lower-cased.
pub open spec fn commit_of_fields(p: Seq<Seq<char>>) -> CommitView {
    CommitView {
        hash: p[0],
        author: AuthorView { name: lower_seq(p[1]), email: lower_seq(p[2]) },
        author_date: number_or_zero(p[3]),
        committer: AuthorView { name: lower_seq(p[4]), email: lower_seq(p[5]) },
        committer_date: number_or_zero(p[6]),
        message: p[7],
        files: Seq::empty(),
    }
}

/// What one line of the commit log gives: a commit when it has exactly eight fields.
pub open spec fn log_entry_spec(entry: Seq<char>) -> Option<CommitView> {
    if log_fields(entry).len() == 8 {
        Some(commit_of_fields(log_fields(entry)))
    } else {
        None
    }
}

pub open spec fn opt_commit_view(o: Option<CommitInfo>) -> Option<CommitView> {
    match o {
        Some(c) => Some(c@),
        None => None,
    }
}

fn number_or_zero_exec(v: &Vec<char>) -> (r: u64)
    ensures
        r == number_or_zero(v@),
{
    match parse_u64(v) {
        Some(n) => n,
        None => 0,
    }
}

/// Parses one line of `git log --pretty=format:"%H-;-%aN-;-%aE-;-%at-;-%cN-;-%cE-;-%ct-;-%f"`.
pub fn parse_log_entry(entry: &str) -> (r: Option<CommitInfo>)
    ensures
        opt_commit_view(r) == log_entry_spec(entry@),
{
    parse_log_chars(&chars_of(entry))
}

fn parse_log_chars(chars: &Vec<char>) -> (r: Option<CommitInfo>)
    ensures
        opt_commit_view(r) == log_entry_spec(chars@),
{
    let trimmed = trim_char_vec(&chars, '"');
    let sep: Vec<char> = vec!['-', ';', '-'];
    assert(sep@ =~= field_sep());
    let parts = split_by(&trimmed, &sep);
    if parts.len() != 8 {
        return None;
    }
    assert(views(parts@)[3] == parts@[3]@);
    let author_date = number_or_zero_exec(&parts[3]);
    let committer_date = number_or_zero_exec(&parts[6]);
    let c = CommitInfo {
        hash: string_of(&parts[0]),
        author: AuthorInfo {
            name: string_of(&lower_vec(&parts[1])),
            email: string_of(&lower_vec(&parts[2])),
        },
        author_date,
        committer: AuthorInfo {
            name: string_of(&lower_vec(&parts[4])),
            email: string_of(&lower_vec(&parts[5])),
        },
        committer_date,
        message: string_of(&parts[7]),
        files: Vec::new(),
    };
    assert(c@.files =~= Seq::<FileChangeView>::empty());
    assert(c@ == commit_of_fields(log_fields(chars@)));
    Some(c)
}

/// The change that the status word of a `--name-status` line names.
pub open spec fn change_of_tokens(t: Seq<Seq<char>>) -> Option<ChangeKind> {
    if t[0] == seq!['A'] {
        Some(ChangeKind::Added)
    } else if t[0] == seq!['M'] {
        Some(ChangeKind::Modified)
    } else if t[0] == seq!['D'] {
        Some(ChangeKind::Deleted)
    } else if t[0].len() > 0 && t[0][0] == 'R' && t.len() == 3 {
        Some(ChangeKind::Renamed(t[1]))
    } else {
        None
    }
}

/// What one `--name-status` line gives: at least two words, a known status,
/// and the last word as the file's name.
pub open spec fn name_status_spec(line: Seq<char>) -> Option<FileChangeView> {
    let t = ws_tokens(line);
    if t.len() < 2 {
        None
    } else {
        match change_of_tokens(t) {
            Some(k) => Some(FileChangeView { file_name: t.last(), change: k, recent: None }),
            None => None,
        }
    }
}

pub open spec fn opt_file_view(o: Option<CommitFileInfo>) -> Option<FileChangeView> {
    match o {
        Some(f) => Some(f@),
        None => None,
    }
}

fn is_single(v: &Vec<char>, c: char) -> (r: bool)
    ensures
        r == (v@ == seq![c]),
{
    let r = v.len() == 1 && v[0] == c;
    if v.len() == 1 && v[0] == c {
        assert(v@ =~= seq![c]);
    }
    r
}

/// Parses one line of `git log --name-status` into the file it names.
pub fn parse_name_status_line(line: &str) -> (r: Option<CommitFileInfo>)
    ensures
        opt_file_view(r) == name_status_spec(line@),
{
    parse_name_status_chars(&chars_of(line))
}

fn parse_name_status_chars(chars: &Vec<char>) -> (r: Option<CommitFileInfo>)
    ensures
        opt_file_view(r) == name_status_spec(chars@),
{
    let parts = split_whitespace_vec(&chars);
    if parts.len() < 2 {
        return None;
    }
    let ghost t = views(parts@);
    assert(t[0] == parts@[0]@);
    assert(t[1] == parts@[1]@);
    assert(t.last() == parts@[parts.len() - 1]@);
    let change_type = if is_single(&parts[0], 'A') {
        ChangeType::Added
    } else if is_single(&parts[0], 'M') {
        ChangeType::Modified
    } else if is_single(&parts[0], 'D') {
        ChangeType::Deleted
    } else if parts[0].len() > 0 && parts[0][0] == 'R' && parts.len() == 3 {
        ChangeType::Renamed(string_of(&parts[1]))
    } else {
        return None;
    };
    Some(
        CommitFileInfo {
            file_name: string_of(&parts[parts.len() - 1]),
            change_type,
            recent_file_name: None,
        },
    )
}


/// The line that `git log --pretty=format:"%H-;-%aN-;-%aE-;-%at-;-%cN-;-%cE-;-%ct-;-%f"`
/// prints for commit `c`: its fields in that order, the dates in decimal,
/// between `-;-` separators, the whole in double quotes.
pub open spec fn log_line(c: CommitView) -> Seq<char> {
    seq!['"'] + join_seq(
        seq![
            c.hash,
            c.author.name,
            c.author.email,
            decimal(c.author_date as nat),
            c.committer.name,
            c.committer.email,
            decimal(c.committer_date as nat),
            c.message,
        ],
        field_sep(),
    ) + seq!['"']
}

/// A text field that the log line can carry unambiguously: it holds neither
/// the `;` of the separator nor a double quote.
pub open spec fn plain_field(s: Seq<char>) -> bool {
    free_of(s, ';') && free_of(s, '"')
}

/// The commit's text fields are all plain.
pub open spec fn plain_commit(c: CommitView) -> bool {
    &&& plain_field(c.hash)
    &&& plain_field(c.author.name)
    &&& plain_field(c.author.email)
    &&& plain_field(c.committer.name)
    &&& plain_field(c.committer.email)
    &&& plain_field(c.message)
}

/// Parsing the log line of a commit gives the commit back, with names and
/// e-mail addresses lower-cased and no files yet.
pub proof fn lemma_log_line_round_trip(c: CommitView)
    requires
        plain_commit(c),
    ensures
        log_entry_spec(log_line(c)) == Some(
            CommitView {
                author: AuthorView { name: lower_seq(c.author.name), email: lower_seq(c.author.email) },
                committer: AuthorView { name: lower_seq(c.committer.name), email: lower_seq(c.committer.email) },
                files: Seq::empty(),
                ..c
            },
        ),
{
    let p = seq![
        c.hash,
        c.author.name,
        c.author.email,
        decimal(c.author_date as nat),
        c.committer.name,
        c.committer.email,
        decimal(c.committer_date as nat),
        c.message,
    ];
    lemma_parse_decimal(c.author_date);
    lemma_parse_decimal(c.committer_date);
    assert forall|k: int| 0 <= k < p.len() implies free_of(#[trigger] p[k], ';') && free_of(p[k], '"') by {
        if k == 3 || k == 6 {
        } else {
            assert(plain_field(p[k]));
        }
    };
    let sep = field_sep();
    assert(free_of(sep, '"'));
    assert(sep[1] == ';');
    lemma_join_free_of(p, sep, '"');
    lemma_trim_quoted(join_seq(p, sep), '"');
    lemma_split_join(p, sep);
    assert(log_fields(log_line(c)) == p);
}

/// The status word that `git log --name-status` prints for a change: `A`,
/// `M` or `D`, or for a rename `R` and the similarity score.
pub open spec fn status_word(k: ChangeKind, score: nat) -> Seq<char> {
    match k {
        ChangeKind::Added => seq!['A'],
        ChangeKind::Modified => seq!['M'],
        ChangeKind::Deleted => seq!['D'],
        ChangeKind::Renamed(_) => seq!['R'] + decimal(score),
    }
}

/// The line that `git log --name-status` prints for a change of `name`: the
/// status word, for a rename the old name, and the name, each two separated
/// by a tab.
pub open spec fn name_status_line(k: ChangeKind, score: nat, name: Seq<char>) -> Seq<char> {
    match k {
        ChangeKind::Renamed(old) => join_seq(seq![status_word(k, score), old, name], seq!['\t']),
        _ => join_seq(seq![status_word(k, score), name], seq!['\t']),
    }
}

/// Parsing the `--name-status` line of a change gives the change back, for
/// file names that are not empty and hold no whitespace.
pub proof fn lemma_name_status_round_trip(k: ChangeKind, score: nat, name: Seq<char>)
    requires
        name.len() > 0,
        no_ws(name),
        k matches ChangeKind::Renamed(old) ==> old.len() > 0 && no_ws(old),
    ensures
        name_status_spec(name_status_line(k, score, name)) == Some(
            FileChangeView { file_name: name, change: k, recent: None },
        ),
{
    let w = status_word(k, score);
    lemma_decimal_no_ws(score);
    assert(is_ws('\t'));
    assert(w.len() > 0 && no_ws(w)) by {
        if k is Renamed {
            let d = decimal(score);
            assert forall|i: int| 0 <= i < w.len() implies !is_ws(#[trigger] w[i]) by {
                if i > 0 {
                    assert(w[i] == d[i - 1]);
                }
            };
        }
    };
    if k is Renamed {
        let old = k->Renamed_0;
        let p = seq![w, old, name];
        assert forall|j: int| 0 <= j < p.len() implies no_ws(#[trigger] p[j]) && p[j].len() > 0 by {};
        lemma_tokens_join(p, '\t');
        let t = ws_tokens(name_status_line(k, score, name));
        assert(t == p);
        assert(t[0][0] == 'R');
        assert(t[0] != seq!['A'] && t[0] != seq!['M'] && t[0] != seq!['D']) by {
            assert(seq!['A'][0] == 'A');
            assert(seq!['M'][0] == 'M');
            assert(seq!['D'][0] == 'D');
        };
        assert(change_of_tokens(t) == Some(k));
        assert(t.last() == name);
    } else {
        let p = seq![w, name];
        assert forall|j: int| 0 <= j < p.len() implies no_ws(#[trigger] p[j]) && p[j].len() > 0 by {};
        lemma_tokens_join(p, '\t');
        let t = ws_tokens(name_status_line(k, score, name));
        assert(t == p);
        assert(t.last() == name);
        assert(t[0] == w);
        assert(change_of_tokens(t) == Some(k)) by {
            assert(seq!['A'] != seq!['M']) by { assert(seq!['A'][0] != seq!['M'][0]); };
            assert(seq!['A'] != seq!['D']) by { assert(seq!['A'][0] != seq!['D'][0]); };
            assert(seq!['M'] != seq!['D']) by { assert(seq!['M'][0] != seq!['D'][0]); };
        };
    }
}

/// The commits of a history, each under its own hash: the library's form of
/// a `HashMap<String, CommitInfo>`, kept in the order the commits came in.
#[derive(Debug, Clone)]
pub struct CommitMap {
    pub entries: Vec<CommitInfo>,
}

/// No two commits share a hash.
pub open spec fn hashes_distinct(s: Seq<CommitView>) -> bool {
    forall|i: int, j: int|
        0 <= i < s.len() && 0 <= j < s.len() && i != j ==> #[trigger] s[i].hash != #[trigger] s[j].hash
}

/// Is there a commit with hash `h`?
pub open spec fn has_hash(s: Seq<CommitView>, h: Seq<char>) -> bool {
    exists|i: int| 0 <= i < s.len() && #[trigger] s[i].hash == h
}

/// The position of the commit with hash `h`.
pub open spec fn hash_pos(s: Seq<CommitView>, h: Seq<char>) -> int {
    choose|i: int| 0 <= i < s.len() && #[trigger] s[i].hash == h
}

/// The commits after `c` is put under its hash: it replaces the commit with
/// the same hash in place, or comes last.
pub open spec fn insert_commit(s: Seq<CommitView>, c: CommitView) -> Seq<CommitView> {
    if has_hash(s, c.hash) {
        s.update(hash_pos(s, c.hash), c)
    } else {
        s.push(c)
    }
}

pub open spec fn commit_views(s: Seq<CommitInfo>) -> Seq<CommitView> {
    s.map_values(|c: CommitInfo| c@)
}

impl View for CommitMap {
    type V = Seq<CommitView>;

    open spec fn view(&self) -> Seq<CommitView> {
        commit_views(self.entries@)
    }
}

impl CommitMap {
    /// Every hash names one commit.
    pub open spec fn wf(&self) -> bool {
        hashes_distinct(self@)
    }

    pub fn new() -> (m: CommitMap)
        ensures
            m.wf(),
            m@ == Seq::<CommitView>::empty(),
    {
        let m = CommitMap { entries: Vec::new() };
        assert(m@ =~= Seq::<CommitView>::empty());
        m
    }

    pub fn len(&self) -> (n: usize)
        ensures
            n == self@.len(),
    {
        self.entries.len()
    }

    /// The commits, in the order they came in.
    pub fn values(&self) -> (r: &Vec<CommitInfo>)
        ensures
            commit_views(r@) == self@,
    {
        &self.entries
    }

    /// The position of the commit with hash `hash`, if any.
    pub fn position(&self, hash: &String) -> (r: Option<usize>)
        requires
            self.wf(),
        ensures
            match r {
                Some(i) => i < self@.len() && self@[i as int].hash == hash@ && i == hash_pos(
                    self@,
                    hash@,
                ),
                None => !has_hash(self@, hash@),
            },
    {
        let mut i: usize = 0;
        while i < self.entries.len()
            invariant
                self.wf(),
                i <= self.entries@.len(),
                forall|j: int| 0 <= j < i ==> self@[j].hash != hash@,
            decreases self.entries.len() - i,
        {
            if self.entries[i].hash == *hash {
                assert(self@[i as int].hash == hash@);
                let ghost k = hash_pos(self@, hash@);
                assert(0 <= k < self@.len() && self@[k].hash == hash@);
                return Some(i);
            }
            i = i + 1;
        }
        None
    }

    /// The commit with hash `hash`, if any.
    pub fn get(&self, hash: &String) -> (r: Option<&CommitInfo>)
        requires
            self.wf(),
        ensures
            match r {
                Some(c) => has_hash(self@, hash@) && c@ == self@[hash_pos(self@, hash@)],
                None => !has_hash(self@, hash@),
            },
    {
        match self.position(hash) {
            Some(i) => Some(&self.entries[i]),
            None => None,
        }
    }

    /// Puts `c` under its hash, replacing the commit that had it.
    pub fn insert(&mut self, c: CommitInfo)
        requires
            old(self).wf(),
        ensures
            final(self).wf(),
            final(self)@ == insert_commit(old(self)@, c@),
    {
        match self.position(&c.hash) {
            Some(i) => {
                self.entries.set(i, c);
                assert(self@ =~= old(self)@.update(i as int, c@));
            },
            None => {
                self.entries.push(c);
                assert(self@ =~= old(self)@.push(c@));
            },
        }
    }
}


/// The commits of a commit log, line by line, each put under its hash in turn.
pub open spec fn commits_of_lines(lines: Seq<Seq<char>>) -> Seq<CommitView>
    decreases lines.len(),
{
    if lines.len() == 0 {
        Seq::empty()
    } else {
        let prev = commits_of_lines(lines.drop_last());
        match log_entry_spec(lines.last()) {
            Some(c) => insert_commit(prev, c),
            None => prev,
        }
    }
}

/// The commits of a commit log: its pieces between line feeds, each parsed.
pub open spec fn commits_of_log(log: Seq<char>) -> Seq<CommitView> {
    commits_of_lines(split_seq(log, seq!['\n']))
}

/// Builds the commit map from the output of
/// `git log --pretty=format:"%H-;-%aN-;-%aE-;-%at-;-%cN-;-%cE-;-%ct-;-%f"`:
/// the pieces between line feeds that parse are put under their hashes in turn.
pub fn commits_from_log(log: &str) -> (m: CommitMap)
    ensures
        m.wf(),
        m@ == commits_of_log(log@),
{
    let chars = chars_of(log);
    let sep: Vec<char> = vec!['\n'];
    let lines = split_by(&chars, &sep);
    assert(sep@ =~= seq!['\n']);
    let ghost ls = views(lines@);
    let mut m = CommitMap::new();
    let mut i: usize = 0;
    assert(ls.take(0) =~= Seq::<Seq<char>>::empty());
    while i < lines.len()
        invariant
            i <= lines.len(),
            ls == views(lines@),
            m.wf(),
            m@ == commits_of_lines(ls.take(i as int)),
        decreases lines.len() - i,
    {
        assert(ls.take(i + 1).drop_last() =~= ls.take(i as int));
        assert(ls.take(i + 1).last() == lines@[i as int]@);
        match parse_log_chars(&lines[i]) {
            Some(c) => m.insert(c),
            None => {},
        }
        i = i + 1;
    }
    assert(ls.take(lines.len() as int) =~= ls);
    m
}

/// Reading a hash back after a commit is put under it gives that commit;
/// every other hash keeps its commit.
pub proof fn lemma_insert_then_get(s: Seq<CommitView>, c: CommitView, h: Seq<char>)
    requires
        hashes_distinct(s),
    ensures
        hashes_distinct(insert_commit(s, c)),
        has_hash(insert_commit(s, c), c.hash),
        insert_commit(s, c)[hash_pos(insert_commit(s, c), c.hash)] == c,
        h != c.hash ==> (has_hash(insert_commit(s, c), h) == has_hash(s, h)),
        h != c.hash && has_hash(s, h) ==> insert_commit(s, c)[hash_pos(insert_commit(s, c), h)] == s[hash_pos(s, h)],
{
    let t = insert_commit(s, c);
    let k = if has_hash(s, c.hash) { hash_pos(s, c.hash) } else { s.len() as int };
    assert(t[k] == c);
    assert forall|i: int, j: int| 0 <= i < t.len() && 0 <= j < t.len() && i != j implies #[trigger] t[i].hash != #[trigger] t[j].hash by {
        if i != k && j != k {
            assert(t[i] == s[i] && t[j] == s[j]);
        } else if i == k {
            if has_hash(s, c.hash) {
                assert(t[j] == s[j]);
            } else {
                assert(t[j] == s[j]);
            }
        } else {
            assert(t[i] == s[i]);
        }
    };
    let p = hash_pos(t, c.hash);
    assert(0 <= p < t.len() && t[p].hash == c.hash);
    if h != c.hash {
        if has_hash(s, h) {
            let q = hash_pos(s, h);
            assert(t[q] == s[q]);
            let r = hash_pos(t, h);
            assert(0 <= r < t.len() && t[r].hash == h);
        }
        if has_hash(t, h) {
            let r = hash_pos(t, h);
            assert(r != k);
            assert(s[r].hash == h);
        }
    }
}

/// The line prefix that opens a commit in `git log --name-status --pretty=format:"commit %H"`.
pub open spec fn commit_prefix() -> Seq<char> {
    seq!['c', 'o', 'm', 'm', 'i', 't', ' ']
}

/// The commit with position `i` after `f` is added to its files.
pub open spec fn add_file(s: Seq<CommitView>, i: int, f: FileChangeView) -> Seq<CommitView> {
    s.update(i, CommitView { files: s[i].files.push(f), ..s[i] })
}

/// One line of the name-status log read: a `commit <hash>` line makes that hash
/// current; any other line that parses is added to the current commit, when
/// the map has it.
pub open spec fn name_status_step(
    state: (Option<Seq<char>>, Seq<CommitView>),
    line: Seq<char>,
) -> (Option<Seq<char>>, Seq<CommitView>) {
    let (cur, s) = state;
    if commit_prefix().len() <= line.len() && line.take(7) == commit_prefix() {
        (Some(line.skip(7)), s)
    } else {
        match cur {
            Some(h) => if has_hash(s, h) {
                match name_status_spec(line) {
                    Some(f) => (cur, add_file(s, hash_pos(s, h), f)),
                    None => state,
                }
            } else {
                state
            },
            None => state,
        }
    }
}

pub open spec fn name_status_fold(
    s: Seq<CommitView>,
    lines: Seq<Seq<char>>,
) -> (Option<Seq<char>>, Seq<CommitView>)
    decreases lines.len(),
{
    if lines.len() == 0 {
        (None, s)
    } else {
        name_status_step(name_status_fold(s, lines.drop_last()), lines.last())
    }
}

/// The commits after the name-status log `log` is read into them.
pub open spec fn with_name_status(s: Seq<CommitView>, log: Seq<char>) -> Seq<CommitView> {
    name_status_fold(s, lines_of(log)).1
}

/// A `commit <hash>` line is no file line: it never parses as a change.
proof fn lemma_commit_line_no_change(l: Seq<char>)
    requires
        commit_prefix().len() <= l.len(),
        l.take(7) == commit_prefix(),
    ensures
        name_status_spec(l) is None,
{
    assert(l[0] == l.take(7)[0]);
    assert(l[0] == 'c');
    assert(!is_ws(l[0]));
    assert(seq![l[0]] == Seq::<char>::empty().push(l[0]));
    assert(ws_tokens(l) == crate::text::tokens_acc(l.drop_first(), seq![l[0]]));
    crate::text::lemma_first_token_start(l.drop_first(), seq![l[0]]);
    let t = ws_tokens(l);
    assert(t[0][0] == 'c');
    assert(t[0] != seq!['A'] && t[0] != seq!['M'] && t[0] != seq!['D']) by {
        assert(seq!['A'][0] == 'A');
        assert(seq!['M'][0] == 'M');
        assert(seq!['D'][0] == 'D');
    };
}

/// The change that a file line parses to.
pub open spec fn parsed_change(l: Seq<char>) -> FileChangeView {
    name_status_spec(l)->Some_0
}

proof fn lemma_name_status_block_fold(s: Seq<CommitView>, k: int, lines: Seq<Seq<char>>, j: int)
    requires
        hashes_distinct(s),
        0 <= k < s.len(),
        lines.len() >= 1,
        lines[0] == commit_prefix() + s[k].hash,
        0 <= j < lines.len(),
        forall|i: int| 1 <= i < lines.len() ==> #[trigger] name_status_spec(lines[i]) is Some,
    ensures
        name_status_fold(s, lines.take(j + 1)) == (
            Some(s[k].hash),
            s.update(k, CommitView {
                files: s[k].files + lines.subrange(1, j + 1).map_values(|l: Seq<char>| parsed_change(l)),
                ..s[k]
            }),
        ),
    decreases j,
{
    let h = s[k].hash;
    if j == 0 {
        let header = lines[0];
        assert(lines.take(1).drop_last() =~= Seq::<Seq<char>>::empty());
        assert(lines.take(1).last() == header);
        assert(header.take(7) =~= commit_prefix());
        assert(header.skip(7) =~= h);
        assert(name_status_fold(s, lines.take(1).drop_last()) == (None::<Seq<char>>, s));
        assert(name_status_fold(s, lines.take(1)) == name_status_step((None, s), header));
        assert(name_status_step((None, s), header) == (Some(h), s));
        let c = CommitView {
            files: s[k].files + lines.subrange(1, 1).map_values(|l: Seq<char>| parsed_change(l)),
            ..s[k]
        };
        assert(c.files =~= s[k].files);
        assert(s.update(k, c) =~= s);
    } else {
        lemma_name_status_block_fold(s, k, lines, j - 1);
        let prev = s.update(k, CommitView {
            files: s[k].files + lines.subrange(1, j).map_values(|l: Seq<char>| parsed_change(l)),
            ..s[k]
        });
        let line = lines[j];
        assert(lines.take(j + 1).drop_last() =~= lines.take(j));
        assert(lines.take(j + 1).last() == line);
        assert(name_status_spec(line) is Some);
        if commit_prefix().len() <= line.len() && line.take(7) == commit_prefix() {
            lemma_commit_line_no_change(line);
        }
        assert(prev[k].hash == h);
        assert(has_hash(prev, h));
        let p = hash_pos(prev, h);
        assert(p == k) by {
            assert(prev[p].hash == h);
            if p != k {
                assert(s[p].hash == prev[p].hash);
            }
        };
        let f = parsed_change(line);
        assert(name_status_spec(line) == Some(f));
        assert(name_status_fold(s, lines.take(j + 1)) == name_status_step((Some(h), prev), line));
        assert(name_status_step((Some(h), prev), line) == (Some(h), add_file(prev, k, f)));
        assert(lines.subrange(1, j + 1).map_values(|l: Seq<char>| parsed_change(l)) =~= lines.subrange(1, j).map_values(
            |l: Seq<char>| parsed_change(l),
        ).push(f));
        assert(add_file(prev, k, f) =~= s.update(k, CommitView {
            files: s[k].files + lines.subrange(1, j + 1).map_values(|l: Seq<char>| parsed_change(l)),
            ..s[k]
        }));
    }
}

/// Reading a `commit <hash>` line for a commit of the map, followed by file
/// lines, appends to that commit's files exactly the changes those lines
/// parse to, in order, whatever their kind; every other commit stays as it
/// was. The log's lines each end with a line feed, and none holds another
/// or ends with a carriage return.
pub proof fn lemma_name_status_appends(s: Seq<CommitView>, k: int, file_lines: Seq<Seq<char>>)
    requires
        hashes_distinct(s),
        0 <= k < s.len(),
        free_of(s[k].hash, '\n'),
        !(s[k].hash.len() > 0 && s[k].hash.last() == '\r'),
        forall|i: int| 0 <= i < file_lines.len() ==> #[trigger] name_status_spec(file_lines[i]) is Some
            && free_of(file_lines[i], '\n') && !(file_lines[i].len() > 0 && file_lines[i].last() == '\r'),
    ensures
        with_name_status(s, crate::text::terminated(seq![commit_prefix() + s[k].hash] + file_lines)) == s.update(
            k,
            CommitView {
                files: s[k].files + file_lines.map_values(|l: Seq<char>| parsed_change(l)),
                ..s[k]
            },
        ),
{
    let header = commit_prefix() + s[k].hash;
    let lines = seq![header] + file_lines;
    assert forall|i: int| 0 <= i < lines.len() implies free_of(#[trigger] lines[i], '\n') && !(lines[i].len() > 0
        && lines[i].last() == '\r') by {
        if i == 0 {
            assert forall|x: int| 0 <= x < header.len() implies header[x] != '\n' by {
                if x >= 7 {
                    assert(header[x] == s[k].hash[x - 7]);
                } else {
                    assert(header[x] == commit_prefix()[x]);
                }
            };
            assert(free_of(header, '\n'));
            if s[k].hash.len() > 0 {
                assert(header[header.len() - 1] == s[k].hash[s[k].hash.len() - 1]);
            } else {
                assert(header =~= commit_prefix());
                assert(header[header.len() - 1] == ' ');
            }
            assert(lines[0] == header);
        } else {
            assert(lines[i] == file_lines[i - 1]);
            assert(name_status_spec(file_lines[i - 1]) is Some);
        }
    };
    crate::text::lemma_lines_of_terminated(lines);
    assert forall|i: int| 1 <= i < lines.len() implies #[trigger] name_status_spec(lines[i]) is Some by {
        assert(lines[i] == file_lines[i - 1]);
    };
    lemma_name_status_block_fold(s, k, lines, lines.len() - 1);
    assert(lines.take(lines.len() as int) =~= lines);
    assert(lines.subrange(1, lines.len() as int) =~= file_lines);
}

/// Reads the output of `git log --name-status --pretty=format:"commit %H" --find-renames`
/// into the commits: each file line is added to the files of the commit that
/// the last `commit <hash>` line named.
pub fn populate_files_from_log(log: &str, commits: &mut CommitMap)
    requires
        old(commits).wf(),
    ensures
        final(commits).wf(),
        final(commits)@ == with_name_status(old(commits)@, log@),
{
    let chars = chars_of(log);
    let lines = lines_vec(&chars);
    let ghost ls = views(lines@);
    let prefix: Vec<char> = vec!['c', 'o', 'm', 'm', 'i', 't', ' '];
    assert(prefix@ =~= commit_prefix());
    let mut current: Option<String> = None;
    let mut i: usize = 0;
    assert(ls.take(0) =~= Seq::<Seq<char>>::empty());
    while i < lines.len()
        invariant
            i <= lines.len(),
            ls == views(lines@),
            prefix@ == commit_prefix(),
            commits.wf(),
            name_status_fold(old(commits)@, ls.take(i as int)) == (opt_view(current), commits@),
        decreases lines.len() - i,
    {
        assert(ls.take(i + 1).drop_last() =~= ls.take(i as int));
        assert(ls.take(i + 1).last() == lines@[i as int]@);
        let line = &lines[i];
        if starts_with_vec(line, &prefix) {
            let rest = sub_vec(line, 7, line.len());
            assert(rest@ =~= line@.skip(7));
            current = Some(string_of(&rest));
        } else {
            match &current {
                Some(h) => {
                    match commits.position(h) {
                        Some(k) => {
                            match parse_name_status_chars(line) {
                                Some(f) => {
                                    let ghost before = commits@;
                                    let ghost fv = f@;
                                    commits.entries[k].files.push(f);
                                    assert(commits@ =~= add_file(before, k as int, fv)) by {
                                        assert(commits@[k as int].files =~= before[k as int].files.push(fv));
                                    };
                                    assert forall|a: int, b: int|
                                        0 <= a < commits@.len() && 0 <= b < commits@.len() && a != b
                                        implies #[trigger] commits@[a].hash != #[trigger] commits@[b].hash by {
                                        assert(commits@[a].hash == before[a].hash);
                                        assert(commits@[b].hash == before[b].hash);
                                    };
                                },
                                None => {},
                            }
                        },
                        None => {},
                    }
                },
                None => {},
            }
        }
        i = i + 1;
    }
    assert(ls.take(lines.len() as int) =~= ls);
}

} // verus!
