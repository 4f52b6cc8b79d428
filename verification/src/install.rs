//! Installing the conversion engine and its filter: which addresses are
//! tried, what the downloaded archive is called, and which of the unpacked
//! files is the executable.

use vstd::prelude::*;
use crate::config::DownloadUrls;
use crate::paths::{file_name, path_file_name};
use crate::text::{
    copy_range, find_last, from_chars, has_substring, last_index, lemma_last_index_bounds,
    push_name, str_contains, to_chars, views,
};

verus! {

/// The addresses from which a download is tried, in order: the release
/// page, then its mirror.
pub fn download_with_fallback(urls: &DownloadUrls) -> (r: Vec<String>)
    ensures
        views(r@) == seq![urls.primary@, urls.mirror@],
{
    let mut order: Vec<String> = Vec::new();
    assert(views(order@) =~= Seq::<Seq<char>>::empty());
    push_name(&mut order, urls.primary.as_str());
    push_name(&mut order, urls.mirror.as_str());
    assert(views(order@) =~= seq![urls.primary@, urls.mirror@]);
    order
}

/// The file name under which the archive at `url` is stored: what follows
/// the last slash of `url`, or all of it if it has no slash.
pub open spec fn archive_name_of(url: Seq<char>) -> Seq<char> {
    url.skip(last_index(url, '/') + 1)
}

/// The file name under which the archive at `url` is stored.
pub fn archive_name(url: &str) -> (r: String)
    ensures
        r@ == archive_name_of(url@),
{
    let text = to_chars(url);
    proof {
        lemma_last_index_bounds(text@, '/');
    }
    let start = match find_last(text.as_slice(), '/') {
        Some(at) => at + 1,
        None => 0,
    };
    let name = copy_range(text.as_slice(), start, text.len());
    assert(name@ =~= archive_name_of(url@));
    from_chars(name.as_slice())
}

/// Whether the file at `path` is the executable `exe_name`: its file name
/// holds `exe_name`.
pub open spec fn is_executable(path: Seq<char>, exe_name: Seq<char>) -> bool {
    match path_file_name(path) {
        Some(name) => has_substring(name, exe_name),
        None => false,
    }
}

/// The first of `files` whose file name holds `exe_name`. `files` are the
/// regular files below the directory that the archive was unpacked to, in
/// the order in which a walk through it meets them.
pub fn find_executable_in_dir(files: &Vec<String>, exe_name: &str) -> (r: Option<String>)
    ensures
        match r {
            Some(path) => exists|i: int|
                0 <= i < files@.len() && path@ == (#[trigger] files@[i])@ && is_executable(
                    files@[i]@,
                    exe_name@,
                ) && forall|j: int| 0 <= j < i ==> !is_executable((#[trigger] files@[j])@, exe_name@),
            None => forall|j: int|
                0 <= j < files@.len() ==> !is_executable((#[trigger] files@[j])@, exe_name@),
        },
{
    let mut i: usize = 0;
    while i < files.len()
        invariant
            i <= files.len(),
            forall|j: int| 0 <= j < i ==> !is_executable((#[trigger] files@[j])@, exe_name@),
        decreases files.len() - i,
    {
        let hit = match file_name(files[i].as_str()) {
            Some(name) => str_contains(name.as_str(), exe_name),
            None => false,
        };
        if hit {
            return Some(files[i].clone());
        }
        i += 1;
    }
    None
}

} // verus!
