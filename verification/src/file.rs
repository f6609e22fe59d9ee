//! The files of the repository and whether each one is vendored.
use vstd::prelude::*;
use crate::git::Repo;
use crate::text::{chars_of, count_char, lemma_lines_count, lines_of, lines_vec, string_of, views};

verus! {

#[verifier::external_type_specification]
#[verifier::external_body]
pub struct ExLinguistError(linguist::LinguistError);

/// A file of the repository and whether it is vendored, to be left out.
#[derive(Debug, Clone)]
pub struct File {
    pub name: String,
    pub filtered: bool,
}

impl File {
    /// A file that is not (yet) marked as vendored.
    pub fn new(name: String) -> (r: File)
        ensures
            r.name == name,
            !r.filtered,
    {
        File { name, filtered: false }
    }
}

pub open spec fn file_names(v: Seq<File>) -> Seq<Seq<char>> {
    v.map_values(|f: File| f.name@)
}

/// The files that `git ls-files` lists, one for each line of its output.
pub fn files_from_listing(output: &str) -> (r: Vec<File>)
    ensures
        file_names(r@) == lines_of(output@),
        forall|i: int| 0 <= i < r@.len() ==> !(#[trigger] r@[i]).filtered,
        output@.len() > 0 && output@.last() == '\n' ==> r@.len() == count_char(output@, '\n'),
{
    let chars = chars_of(output);
    let lines = lines_vec(&chars);
    let ghost lv = views(lines@);
    let mut r: Vec<File> = Vec::new();
    let mut i: usize = 0;
    while i < lines.len()
        invariant
            i <= lines@.len(),
            lv == views(lines@),
            file_names(r@) == lv.take(i as int),
            forall|j: int| 0 <= j < r@.len() ==> !(#[trigger] r@[j]).filtered,
        decreases lines.len() - i,
    {
        let ghost before = file_names(r@);
        r.push(File::new(string_of(&lines[i])));
        assert(file_names(r@) =~= before.push(lv[i as int]));
        assert(lv.take(i + 1) =~= lv.take(i as int).push(lv[i as int]));
        i = i + 1;
    }
    assert(lv.take(lines.len() as int) =~= lv);
    proof {
        if output@.len() > 0 && output@.last() == '\n' {
            lemma_lines_count(output@);
        }
    }
    r
}

/// What `linguist::is_vendored` decides of the path of `name` inside the
/// directory `root`: whether one of its vendor patterns matches that path.
pub uninterp spec fn linguist_vendored(root: Seq<char>, name: Seq<char>) -> bool;

/// `linguist::is_vendored` on the path `root` joined with `name`. The path is
/// made of two texts, so it is valid UTF-8 and the call never fails; what it
/// decides is named `linguist_vendored`, a function of the two texts alone
/// (a fixed list of patterns matched against the path).
#[verifier::external_body]
fn is_vendored_in(root: &str, name: &str) -> (r: Result<bool, linguist::LinguistError>)
    ensures
        r is Ok,
        r matches Ok(b) ==> b == linguist_vendored(root@, name@),
{
    linguist::is_vendored(std::path::Path::new(root).join(name))
}

/// Marks each file that linguist takes for a vendored one.
pub fn mark_vendored_files(files: &mut Vec<File>, repo: &Repo)
    ensures
        final(files)@.len() == old(files)@.len(),
        forall|i: int|
            0 <= i < old(files)@.len() ==> (#[trigger] final(files)@[i]).name == old(files)@[i].name
                && final(files)@[i].filtered == linguist_vendored(repo.path@, old(files)@[i].name@),
{
    let mut i: usize = 0;
    while i < files.len()
        invariant
            i <= files@.len(),
            files@.len() == old(files)@.len(),
            forall|j: int| 0 <= j < files@.len() ==> (#[trigger] files@[j]).name == old(files)@[j].name,
            forall|j: int| 0 <= j < i ==> (#[trigger] files@[j]).filtered == linguist_vendored(repo.path@, old(files)@[j].name@),
        decreases files.len() - i,
    {
        match is_vendored_in(repo.path, files[i].name.as_str()) {
            Ok(result) => {
                files[i].filtered = result;
            },
            Err(_) => {},
        }
        i = i + 1;
    }
}

} // verus!
