//! Selection of the files of a torrent by a regular expression over their names.

use vstd::prelude::*;

verus! {

#[verifier::external_type_specification]
#[verifier::external_body]
pub struct ExRegex(regex::Regex);

/// The pattern is a valid regular expression.
pub uninterp spec fn regex_compiles(pattern: Seq<char>) -> bool;

/// The regular expression `pattern` matches somewhere in `text`.
pub uninterp spec fn regex_matches(pattern: Seq<char>, text: Seq<char>) -> bool;

/// A compiled regular expression, with the pattern it was compiled from.
pub struct FileFilter {
    re: regex::Regex,
    pub pattern: Ghost<Seq<char>>,
}

/// Why no file selection could be made.
#[derive(Clone, Copy, Debug, PartialEq, Eq, Structural)]
pub enum OnlyFilesError {
    /// The filename regex is not valid.
    BadRegex,
    /// No file name matches the regex.
    NoMatch,
}

/// Relies on `regex::Regex::new`: it accepts exactly the valid patterns, whatever else
/// is around.
#[verifier::external_body]
fn compile_regex(pattern: &str) -> (r: Option<FileFilter>)
    ensures
        r is Some <==> regex_compiles(pattern@),
        r matches Some(f) ==> f.pattern@ == pattern@,
{
    match regex::Regex::new(pattern) {
        Ok(re) => Some(FileFilter { re, pattern: Ghost(pattern@) }),
        Err(_) => None,
    }
}

/// Relies on `regex::Regex::is_match`: whether the compiled pattern matches in `text`.
#[verifier::external_body]
fn filter_is_match(f: &FileFilter, text: &str) -> (r: bool)
    ensures
        r == regex_matches(f.pattern@, text@),
{
    f.re.is_match(text)
}

/// The indices, ascending, of the names among `matched` that are set.
pub open spec fn selected_indices(matched: Seq<bool>) -> Seq<usize>
    decreases matched.len(),
{
    if matched.len() == 0 {
        seq![]
    } else {
        let rest = selected_indices(matched.drop_last());
        if matched.last() {
            rest.push((matched.len() - 1) as usize)
        } else {
            rest
        }
    }
}

/// The indices of the names for which `matched` is set; an error when there is none.
pub fn select_matching(matched: &Vec<bool>) -> (r: Result<Vec<usize>, OnlyFilesError>)
    ensures
        r matches Ok(v) ==> v@ == selected_indices(matched@) && v@.len() > 0,
        r is Err ==> r == Err::<Vec<usize>, OnlyFilesError>(OnlyFilesError::NoMatch)
            && selected_indices(matched@).len() == 0,
{
    let mut v: Vec<usize> = Vec::new();
    let mut i: usize = 0;
    while i < matched.len()
        invariant
            i <= matched@.len(),
            v@ == selected_indices(matched@.take(i as int)),
        decreases matched@.len() - i,
    {
        assert(matched@.take(i + 1).drop_last() =~= matched@.take(i as int));
        if matched[i] {
            v.push(i);
        }
        i = i + 1;
    }
    assert(matched@.take(i as int) =~= matched@);
    if v.len() == 0 {
        return Err(OnlyFilesError::NoMatch);
    }
    Ok(v)
}

/// The files to download: those whose name the regex matches, by index.
pub fn compute_only_files(filenames: &Vec<String>, filename_re: &str) -> (r: Result<
    Vec<usize>,
    OnlyFilesError,
>)
    ensures
        !regex_compiles(filename_re@) <==> r == Err::<Vec<usize>, OnlyFilesError>(
            OnlyFilesError::BadRegex,
        ),
        regex_compiles(filename_re@) ==> {
            let matched = Seq::new(
                filenames@.len(),
                |i: int| regex_matches(filename_re@, filenames@[i]@),
            );
            &&& r matches Ok(v) ==> v@ == selected_indices(matched)
            &&& r is Err ==> selected_indices(matched).len() == 0
            &&& selected_indices(matched).len() == 0 ==> r == Err::<Vec<usize>, OnlyFilesError>(
                OnlyFilesError::NoMatch,
            )
        },
{
    let f = match compile_regex(filename_re) {
        Some(f) => f,
        None => return Err(OnlyFilesError::BadRegex),
    };
    let mut matched: Vec<bool> = Vec::new();
    let mut i: usize = 0;
    while i < filenames.len()
        invariant
            i <= filenames@.len(),
            f.pattern@ == filename_re@,
            matched@.len() == i,
            forall|j: int|
                0 <= j < i ==> #[trigger] matched@[j] == regex_matches(filename_re@, filenames@[j]@),
        decreases filenames@.len() - i,
    {
        matched.push(filter_is_match(&f, filenames[i].as_str()));
        i = i + 1;
    }
    let ghost want = Seq::new(
        filenames@.len(),
        |i: int| regex_matches(filename_re@, filenames@[i]@),
    );
    assert(matched@ =~= want);
    select_matching(&matched)
}

} // verus!
