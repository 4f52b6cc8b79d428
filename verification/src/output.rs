//! Where a converted document is written: the directory, the name, and a
//! file name in that directory that no earlier output has.

use vstd::prelude::*;
use crate::naming::{first_free_name, free_name, is_series, lemma_free_name};
use crate::paths::{join, path_join};
use crate::text::{push_str, views};

verus! {

/// The mark that every output name carries after its stem.
pub open spec fn output_mark() -> Seq<char> {
    "_格式匠"@
}

/// The first output name for `stem` and `ext`: `stem`, the mark, a dot and
/// `ext`.
pub open spec fn output_first(stem: Seq<char>, ext: Seq<char>) -> Seq<char> {
    stem + output_mark() + "."@ + ext
}

/// What stands before the number in the later output names.
pub open spec fn output_prefix(stem: Seq<char>) -> Seq<char> {
    stem + output_mark() + "_"@
}

/// What stands after the number in the later output names.
pub open spec fn output_suffix(ext: Seq<char>) -> Seq<char> {
    "."@ + ext
}

/// The file name of the output for `stem` and `ext` in a directory that
/// holds `taken`: the first of `stem_格式匠.ext`, `stem_格式匠_1.ext`,
/// `stem_格式匠_2.ext`, ... that `taken` lacks.
pub open spec fn output_name(stem: Seq<char>, ext: Seq<char>, taken: Seq<Seq<char>>) -> Seq<char> {
    free_name(output_first(stem, ext), output_prefix(stem), output_suffix(ext), taken)
}

/// The output names form a series.
pub proof fn lemma_output_series(stem: Seq<char>, ext: Seq<char>)
    ensures
        is_series(output_first(stem, ext), output_prefix(stem), output_suffix(ext)),
{
    reveal_strlit("_");
    reveal_strlit(".");
}

/// The output name is none of the names that the directory holds.
pub proof fn lemma_output_name_is_new(stem: Seq<char>, ext: Seq<char>, taken: Seq<Seq<char>>)
    ensures
        !taken.contains(output_name(stem, ext, taken)),
{
    lemma_output_series(stem, ext);
    lemma_free_name(output_first(stem, ext), output_prefix(stem), output_suffix(ext), taken);
}

/// The names that `n` conversions with the same stem and extension get, one
/// after the other, in a directory that held `taken` before the first.
pub open spec fn repeated_outputs(stem: Seq<char>, ext: Seq<char>, taken: Seq<Seq<char>>, n: nat)
    -> Seq<Seq<char>>
    decreases n,
{
    if n == 0 {
        Seq::empty()
    } else {
        let before = repeated_outputs(stem, ext, taken, (n - 1) as nat);
        before.push(output_name(stem, ext, taken + before))
    }
}

/// Repeated conversions never write over a file: each gets a name that the
/// directory did not hold before the first conversion and that no other of
/// them got.
pub proof fn lemma_repeated_outputs_differ(
    stem: Seq<char>,
    ext: Seq<char>,
    taken: Seq<Seq<char>>,
    n: nat,
)
    ensures
        repeated_outputs(stem, ext, taken, n).len() == n,
        forall|i: int|
            0 <= i < n ==> !taken.contains(#[trigger] repeated_outputs(stem, ext, taken, n)[i]),
        forall|i: int, j: int|
            0 <= i < j < n ==> #[trigger] repeated_outputs(stem, ext, taken, n)[i]
                != #[trigger] repeated_outputs(stem, ext, taken, n)[j],
    decreases n,
{
    if n > 0 {
        let before = repeated_outputs(stem, ext, taken, (n - 1) as nat);
        lemma_repeated_outputs_differ(stem, ext, taken, (n - 1) as nat);
        let name = output_name(stem, ext, taken + before);
        lemma_output_name_is_new(stem, ext, taken + before);
        let all = repeated_outputs(stem, ext, taken, n);
        assert(all == before.push(name));
        assert forall|i: int| 0 <= i < n implies !taken.contains(#[trigger] all[i]) by {
            if i < n - 1 {
                assert(all[i] == before[i]);
            } else if taken.contains(name) {
                let p = choose|p: int| 0 <= p < taken.len() && taken[p] == name;
                assert((taken + before)[p] == name);
            }
        }
        assert forall|i: int, j: int| 0 <= i < j < n implies #[trigger] all[i] != #[trigger] all[j] by {
            assert(all[i] == before[i]);
            if j < n - 1 {
                assert(all[j] == before[j]);
            } else {
                assert((taken + before)[taken.len() + i] == before[i]);
            }
        }
    }
}

/// A path in `dir` for the output of a document with file stem `stem` and
/// extension `ext`, under a name that `existing`, the names in `dir`, does
/// not hold.
pub fn make_unique_with_ext(dir: &str, stem: &str, ext: &str, existing: &Vec<String>) -> (r:
    String)
    ensures
        r@ == path_join(dir@, output_name(stem@, ext@, views(existing@))),
        !views(existing@).contains(output_name(stem@, ext@, views(existing@))),
{
    let mut first: Vec<char> = Vec::new();
    push_str(&mut first, stem);
    push_str(&mut first, "_格式匠");
    push_str(&mut first, ".");
    push_str(&mut first, ext);
    let mut prefix: Vec<char> = Vec::new();
    push_str(&mut prefix, stem);
    push_str(&mut prefix, "_格式匠");
    push_str(&mut prefix, "_");
    let mut suffix: Vec<char> = Vec::new();
    push_str(&mut suffix, ".");
    push_str(&mut suffix, ext);
    proof {
        assert(first@ =~= output_first(stem@, ext@));
        assert(prefix@ =~= output_prefix(stem@));
        assert(suffix@ =~= output_suffix(ext@));
        lemma_output_series(stem@, ext@);
    }
    let name = first_free_name(first.as_slice(), prefix.as_slice(), suffix.as_slice(), existing);
    join(dir, name.as_str())
}

} // verus!
