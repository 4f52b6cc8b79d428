//! Image references in Markdown text: finding them, naming the copies of the
//! images they point at, and rewriting the references to the copies.
//!
//! An image reference is `![alt](path)`: `![`, an alt text without `]`, `](`,
//! a path of at least one character without `)`, and `)`. References are
//! found from left to right and do not overlap.

use vstd::prelude::*;
use crate::error::PipelineError;
use crate::naming::{first_free_name, free_name, lemma_free_name};
use crate::paths::{file_name, is_absolute, join, path_file_name, path_is_absolute, path_join};
use crate::text::{
    clone_names, copy_range, dir_view, find_char, find_last, from_chars, last_index, lemma_find_char_bounds,
    lemma_last_index_bounds, lemma_views_push, option_view, push_str, str_eq,
    str_starts_with, to_chars, trim, trimmed, views,
};

verus! {

/// The image reference that begins at position `i` of `s`, as the position
/// of the `]` that ends its alt text and of the `)` that ends its path.
pub open spec fn image_at(s: Seq<char>, i: int) -> Option<(int, int)> {
    if 0 <= i && i + 1 < s.len() && s[i] == '!' && s[i + 1] == '[' {
        let j = find_char(s, ']', i + 2);
        if j + 1 < s.len() && s[j + 1] == '(' {
            let k = find_char(s, ')', j + 2);
            if j + 2 < k < s.len() {
                Some((j, k))
            } else {
                None
            }
        } else {
            None
        }
    } else {
        None
    }
}

/// The first image reference of `s` that begins at or after `from`: where it
/// begins, where its alt text ends and where its path ends.
pub open spec fn next_image(s: Seq<char>, from: int) -> Option<(int, int, int)>
    decreases s.len() - from,
{
    if from < 0 || from >= s.len() {
        None
    } else {
        match image_at(s, from) {
            Some((j, k)) => Some((from, j, k)),
            None => next_image(s, from + 1),
        }
    }
}

/// An image reference lies at or after the place where the search begins,
/// and its parts follow one another inside the text.
pub proof fn lemma_next_image_bounds(s: Seq<char>, from: int)
    requires
        0 <= from,
    ensures
        next_image(s, from) matches Some((i, j, k)) ==> from <= i && i + 2 <= j && j + 2 < k
            && k < s.len(),
    decreases s.len() - from,
{
    if from < s.len() {
        match image_at(s, from) {
            Some((j, k)) => {
                lemma_find_char_bounds(s, ']', from + 2);
            },
            None => {
                lemma_next_image_bounds(s, from + 1);
            },
        }
    }
}

/// The image references of `s` from `from` on, each as its alt text and its
/// path, in the order in which they stand.
pub open spec fn image_refs(s: Seq<char>, from: int) -> Seq<(Seq<char>, Seq<char>)>
    decreases s.len() - from,
{
    if from < 0 {
        Seq::empty()
    } else {
        match next_image(s, from) {
            Some((i, j, k)) => {
                proof {
                    lemma_next_image_bounds(s, from);
                }
                seq![(s.subrange(i + 2, j), s.subrange(j + 2, k))] + image_refs(s, k + 1)
            },
            None => Seq::empty(),
        }
    }
}

/// The text of `s` from `from` on that belongs to no image reference: the
/// piece before each reference and the piece after the last.
pub open spec fn image_gaps(s: Seq<char>, from: int) -> Seq<Seq<char>>
    decreases s.len() - from,
{
    if from < 0 || from > s.len() {
        seq![Seq::empty()]
    } else {
        match next_image(s, from) {
            Some((i, j, k)) => {
                proof {
                    lemma_next_image_bounds(s, from);
                }
                seq![s.subrange(from, i)] + image_gaps(s, k + 1)
            },
            None => seq![s.subrange(from, s.len() as int)],
        }
    }
}

/// The pattern of an image reference, in the syntax of the `regex` crate.
pub open spec fn image_pattern() -> Seq<char> {
    "!\\[(?P<alt>[^\\]]*)\\]\\((?P<path>[^)]+)\\)"@
}

/// Whether `Regex::new` of the `regex` crate accepts `pattern`: whether it
/// is a valid pattern that compiles within the crate's default size limit.
pub uninterp spec fn pattern_compiles(pattern: Seq<char>) -> bool;

/// An image reference: its alt text and its path, as written.
#[derive(Debug, Clone)]
pub struct ImageRef {
    pub alt: String,
    pub path: String,
}

/// The alt texts and paths of a list of references.
pub open spec fn refs_view(refs: Seq<ImageRef>) -> Seq<(Seq<char>, Seq<char>)> {
    Seq::new(refs.len(), |i: int| (refs[i].alt@, refs[i].path@))
}

/// The matches of the image pattern in `content`. Compiles `pattern` with
/// `Regex::new` and walks `Regex::captures_iter`, which yields the leftmost
/// match, then the leftmost match after it, and so on. For the image pattern
/// a match at a given place is unique: the alt text runs to the first `]`,
/// the path to the first `)`. `None` where `Regex::new` refuses the pattern,
/// which depends on the pattern alone and is only named here.
#[verifier::external_body]
pub(crate) fn pattern_captures(pattern: &str, content: &str) -> (r: Option<Vec<ImageRef>>)
    requires
        pattern@ == image_pattern(),
    ensures
        r is Some <==> pattern_compiles(pattern@),
        r matches Some(refs) ==> refs_view(refs@) == image_refs(content@, 0),
{
    let re = regex::Regex::new(pattern).ok()?;
    Some(
        re.captures_iter(content).map(
            |c| ImageRef { alt: c[1].to_string(), path: c[2].to_string() },
        ).collect(),
    )
}

/// The text of `content` between the matches of the image pattern. Compiles
/// `pattern` with `Regex::new` and walks `Regex::split`, which yields the
/// text before the first match, the text between each two matches, and the
/// text after the last. `None` where `Regex::new` refuses the pattern,
/// which depends on the pattern alone and is only named here.
#[verifier::external_body]
pub(crate) fn pattern_gaps(pattern: &str, content: &str) -> (r: Option<Vec<String>>)
    requires
        pattern@ == image_pattern(),
    ensures
        r is Some <==> pattern_compiles(pattern@),
        r matches Some(gaps) ==> views(gaps@) == image_gaps(content@, 0),
{
    let re = regex::Regex::new(pattern).ok()?;
    Some(re.split(content).map(|s| s.to_string()).collect())
}

/// The position of the last dot of `s`, or -1 if it has none.
pub open spec fn last_dot(s: Seq<char>) -> int {
    last_index(s, '.')
}

/// What stands before the number in the numbered names of `base`: the name
/// up to its last dot, or all of it, and an underscore.
pub open spec fn name_prefix(base: Seq<char>) -> Seq<char> {
    if last_dot(base) >= 0 {
        base.take(last_dot(base)).push('_')
    } else {
        base.push('_')
    }
}

/// What stands after the number in the numbered names of `base`: its last
/// dot and what follows it, if it has a dot.
pub open spec fn name_suffix(base: Seq<char>) -> Seq<char> {
    if last_dot(base) >= 0 {
        base.skip(last_dot(base))
    } else {
        Seq::empty()
    }
}

/// The name under which a file called `base` is stored in a directory that
/// holds `taken`: `base` itself if it is free, else the first free one of
/// `stem_1.ext`, `stem_2.ext`, ... (`base_1`, `base_2`, ... without a dot).
pub open spec fn unique_name(base: Seq<char>, taken: Seq<Seq<char>>) -> Seq<char> {
    free_name(base, name_prefix(base), name_suffix(base), taken)
}

/// A name for a copy of the file called `base_name` that no entry of
/// `existing`, the names in the target directory, has yet.
pub fn make_unique_name(base_name: &str, existing: &Vec<String>) -> (r: String)
    ensures
        r@ == unique_name(base_name@, views(existing@)),
        !views(existing@).contains(r@),
{
    let base = to_chars(base_name);
    let mut prefix: Vec<char>;
    let suffix: Vec<char>;
    proof {
        lemma_last_index_bounds(base@, '.');
    }
    match find_last(base.as_slice(), '.') {
        Some(d) => {
            prefix = copy_range(base.as_slice(), 0, d);
            suffix = copy_range(base.as_slice(), d, base.len());
            assert(suffix@ =~= name_suffix(base@));
        },
        None => {
            prefix = copy_range(base.as_slice(), 0, base.len());
            assert(prefix@ =~= base@);
            suffix = Vec::new();
            assert(suffix@ =~= name_suffix(base@));
        },
    }
    prefix.push('_');
    assert(prefix@ =~= name_prefix(base@));
    first_free_name(base.as_slice(), prefix.as_slice(), suffix.as_slice(), existing)
}

/// Whether `reference` points at the web: it begins with `http://` or
/// `https://`.
pub open spec fn is_remote(reference: Seq<char>) -> bool {
    "http://"@.is_prefix_of(reference) || "https://"@.is_prefix_of(reference)
}

/// Where the image that `reference` points at is looked for: at `reference`
/// itself if it is absolute, else below `base_dir`, if there is one.
pub open spec fn image_source(reference: Seq<char>, base_dir: Option<Seq<char>>) -> Option<
    Seq<char>,
> {
    if path_is_absolute(reference) {
        Some(reference)
    } else {
        match base_dir {
            Some(base) => Some(path_join(base, reference)),
            None => None,
        }
    }
}

/// The name of the file at `source`, or `image` if the path names none.
pub open spec fn source_name(source: Seq<char>) -> Seq<char> {
    match path_file_name(source) {
        Some(name) => name,
        None => "image"@,
    }
}

/// The asset name that `names` holds for `reference`: that of the latest
/// entry for it.
pub open spec fn assigned(names: Seq<(Seq<char>, Seq<char>)>, reference: Seq<char>) -> Option<
    Seq<char>,
>
    decreases names.len(),
{
    if names.len() == 0 {
        None
    } else if names.last().0 == reference {
        Some(names.last().1)
    } else {
        assigned(names.drop_last(), reference)
    }
}

/// What is known while the references of a document are gone through.
#[verifier::ext_equal]
pub ghost struct AssetState {
    /// The names in the assets directory.
    pub taken: Seq<Seq<char>>,
    /// The references whose images were copied, each with the name of its copy.
    pub names: Seq<(Seq<char>, Seq<char>)>,
    /// The paths of the copies.
    pub copied: Seq<Seq<char>>,
    /// For each reference gone through: the asset name that it now points
    /// at, or `None` where it stays as written.
    pub decided: Seq<Option<Seq<char>>>,
    /// How many copies were tried.
    pub used: int,
}

/// What is done about one reference.
pub ghost enum Decision {
    /// It stays as written.
    Keep,
    /// It points at an image that was copied before, under this name.
    Reuse(Seq<char>),
    /// Its image, at this source, is to be copied under this name.
    Copy(Seq<char>, Seq<char>),
}

/// What is done about `reference` in `state`.
pub open spec fn decision(state: AssetState, reference: Seq<char>, base_dir: Option<Seq<char>>)
    -> Decision {
    if is_remote(reference) {
        Decision::Keep
    } else {
        match assigned(state.names, reference) {
            Some(name) => Decision::Reuse(name),
            None => match image_source(reference, base_dir) {
                Some(source) => Decision::Copy(
                    source,
                    unique_name(source_name(source), state.taken),
                ),
                None => Decision::Keep,
            },
        }
    }
}

/// The state after a reference is left, or rewritten to `name`, with no copy.
pub open spec fn after_decided(state: AssetState, name: Option<Seq<char>>) -> AssetState {
    AssetState { decided: state.decided.push(name), ..state }
}

/// The state after the image of `reference` was copied under `name`.
pub open spec fn after_copy(
    state: AssetState,
    reference: Seq<char>,
    name: Seq<char>,
    assets_dir: Seq<char>,
) -> AssetState {
    AssetState {
        taken: state.taken.push(name),
        names: state.names.push((reference, name)),
        copied: state.copied.push(path_join(assets_dir, name)),
        decided: state.decided.push(Some(name)),
        used: state.used + 1,
    }
}

/// The state after a copy failed: the reference stays as written.
pub open spec fn after_failure(state: AssetState) -> AssetState {
    AssetState { decided: state.decided.push(None), used: state.used + 1, ..state }
}

/// Where going through the references ends: the state reached, and the copy
/// that must be tried before it can go on, as source and name, if any.
pub ghost struct AssetOutcome {
    pub state: AssetState,
    pub request: Option<(Seq<char>, Seq<char>)>,
}

/// Goes through `references` from the `i`-th on. `outcomes` says of each copy
/// tried so far whether it succeeded; the walk stops at the first copy whose
/// outcome is not known yet.
pub open spec fn resolve_from(
    state: AssetState,
    references: Seq<Seq<char>>,
    i: int,
    base_dir: Option<Seq<char>>,
    assets_dir: Seq<char>,
    outcomes: Seq<bool>,
) -> AssetOutcome
    decreases references.len() - i,
{
    if i < 0 || i >= references.len() {
        AssetOutcome { state, request: None }
    } else {
        match decision(state, references[i], base_dir) {
            Decision::Keep => resolve_from(
                after_decided(state, None),
                references,
                i + 1,
                base_dir,
                assets_dir,
                outcomes,
            ),
            Decision::Reuse(name) => resolve_from(
                after_decided(state, Some(name)),
                references,
                i + 1,
                base_dir,
                assets_dir,
                outcomes,
            ),
            Decision::Copy(source, name) => if state.used < 0 || state.used >= outcomes.len() {
                AssetOutcome { state, request: Some((source, name)) }
            } else if outcomes[state.used] {
                resolve_from(
                    after_copy(state, references[i], name, assets_dir),
                    references,
                    i + 1,
                    base_dir,
                    assets_dir,
                    outcomes,
                )
            } else {
                resolve_from(
                    after_failure(state),
                    references,
                    i + 1,
                    base_dir,
                    assets_dir,
                    outcomes,
                )
            },
        }
    }
}

/// The state before any reference is gone through, in a directory that
/// holds `existing`.
pub open spec fn initial_state(existing: Seq<Seq<char>>) -> AssetState {
    AssetState {
        taken: existing,
        names: Seq::empty(),
        copied: Seq::empty(),
        decided: Seq::empty(),
        used: 0,
    }
}

/// The references of a document: the path of each image reference, trimmed.
pub open spec fn references_of(refs: Seq<(Seq<char>, Seq<char>)>) -> Seq<Seq<char>> {
    Seq::new(refs.len(), |i: int| trimmed(refs[i].1))
}

/// The text of a reference with alt text `alt`: pointing at the asset
/// `name`, or, with no name, at `path` as before.
pub open spec fn reference_text(alt: Seq<char>, path: Seq<char>, name: Option<Seq<char>>) -> Seq<
    char,
> {
    match name {
        Some(name) => "!["@ + alt + "](assets/"@ + name + ")"@,
        None => "!["@ + alt + "]("@ + path + ")"@,
    }
}

/// The `i`-th piece of `gaps`, or nothing if there is none.
pub open spec fn gap_at(gaps: Seq<Seq<char>>, i: int) -> Seq<char> {
    if 0 <= i < gaps.len() {
        gaps[i]
    } else {
        Seq::empty()
    }
}

/// The decision on the `i`-th reference, if one was made.
pub open spec fn decided_at(decided: Seq<Option<Seq<char>>>, i: int) -> Option<Seq<char>> {
    if 0 <= i < decided.len() {
        decided[i]
    } else {
        None
    }
}

/// The document text up to and with the piece after its `n`-th reference.
pub open spec fn render(
    gaps: Seq<Seq<char>>,
    refs: Seq<(Seq<char>, Seq<char>)>,
    decided: Seq<Option<Seq<char>>>,
    n: nat,
) -> Seq<char>
    decreases n,
{
    if n == 0 || n > refs.len() {
        gap_at(gaps, 0)
    } else {
        render(gaps, refs, decided, (n - 1) as nat) + reference_text(
            refs[n - 1].0,
            refs[n - 1].1,
            decided_at(decided, n - 1),
        ) + gap_at(gaps, n as int)
    }
}

/// Where `img` is to be looked for: at `img` itself if it is an absolute
/// path, else below `base_dir`; nowhere if it is relative and there is no
/// base directory. Whether a file is there is for the caller to find out.
pub fn resolve_image_path(img: &str, base_dir: Option<&str>) -> (r: Option<String>)
    ensures
        r.deep_view() == image_source(
            img@,
            match base_dir {
                Some(b) => Some(b@),
                None => None,
            },
        ),
{
    if is_absolute(img) {
        return Some(img.to_owned());
    }
    match base_dir {
        Some(base) => Some(join(base, img)),
        None => None,
    }
}

/// Whether `reference` points at the web.
pub fn is_remote_reference(reference: &str) -> (r: bool)
    ensures
        r == is_remote(reference@),
{
    str_starts_with(reference, "http://") || str_starts_with(reference, "https://")
}

/// The views of a list of references with the names of their copies.
pub open spec fn pairs_view(names: Seq<(String, String)>) -> Seq<(Seq<char>, Seq<char>)> {
    Seq::new(names.len(), |i: int| (names[i].0@, names[i].1@))
}

/// The views of a list of names that may be missing.
pub open spec fn options_view(names: Seq<Option<String>>) -> Seq<Option<Seq<char>>> {
    Seq::new(names.len(), |i: int| option_view(names[i]))
}

/// What a caller does next about the images of a document.
#[derive(Debug)]
pub enum AssetStep {
    /// Copy the file at `source`, if it is a regular file, to `target`,
    /// which is `name` in the assets directory, and ask again with the
    /// outcome added to those given so far.
    Copy { source: String, name: String, target: String },
    /// Nothing is left to copy: `copied` are the paths of the copies made,
    /// `rewritten` is the text with the references pointing at them.
    Done { copied: Vec<String>, rewritten: String },
}

/// Whether `step` is what follows from going through the references `refs`
/// of a document with the pieces `gaps` between them.
pub open spec fn is_step(
    step: AssetStep,
    gaps: Seq<Seq<char>>,
    refs: Seq<(Seq<char>, Seq<char>)>,
    base_dir: Option<Seq<char>>,
    assets_dir: Seq<char>,
    existing: Seq<Seq<char>>,
    outcomes: Seq<bool>,
) -> bool {
    let out = resolve_from(
        initial_state(existing),
        references_of(refs),
        0,
        base_dir,
        assets_dir,
        outcomes,
    );
    match step {
        AssetStep::Copy { source, name, target } => {
            &&& out.request == Some((source@, name@))
            &&& target@ == path_join(assets_dir, name@)
            &&& !out.state.taken.contains(name@)
        },
        AssetStep::Done { copied, rewritten } => {
            &&& out.request is None
            &&& views(copied@) == out.state.copied
            &&& rewritten@ == render(gaps, refs, out.state.decided, refs.len())
        },
    }
}

fn lookup(names: &Vec<(String, String)>, reference: &str) -> (r: Option<String>)
    ensures
        option_view(r) == assigned(pairs_view(names@), reference@),
{
    let mut i: usize = names.len();
    assert(pairs_view(names@).take(i as int) =~= pairs_view(names@));
    while i > 0
        invariant
            i <= names.len(),
            assigned(pairs_view(names@), reference@) == assigned(
                pairs_view(names@).take(i as int),
                reference@,
            ),
        decreases i,
    {
        let ghost front = pairs_view(names@).take(i as int);
        assert(front.drop_last() =~= pairs_view(names@).take(i - 1));
        assert(front.last() == (names@[i - 1].0@, names@[i - 1].1@));
        if str_eq(names[i - 1].0.as_str(), reference) {
            return Some(names[i - 1].1.clone());
        }
        i -= 1;
    }
    None
}

fn render_text(gaps: &Vec<String>, refs: &Vec<ImageRef>, decided: &Vec<Option<String>>) -> (r:
    String)
    ensures
        r@ == render(views(gaps@), refs_view(refs@), options_view(decided@), refs.len() as nat),
{
    let mut out: Vec<char> = Vec::new();
    if gaps.len() > 0 {
        push_str(&mut out, gaps[0].as_str());
    }
    assert(out@ =~= gap_at(views(gaps@), 0));
    let mut n: usize = 0;
    while n < refs.len()
        invariant
            n <= refs.len(),
            out@ == render(views(gaps@), refs_view(refs@), options_view(decided@), n as nat),
        decreases refs.len() - n,
    {
        let ghost before = out@;
        let ghost name = decided_at(options_view(decided@), n as int);
        push_str(&mut out, "![");
        push_str(&mut out, refs[n].alt.as_str());
        if n < decided.len() && decided[n].is_some() {
            push_str(&mut out, "](assets/");
            match &decided[n] {
                Some(name) => {
                    push_str(&mut out, name.as_str());
                },
                None => {},
            }
        } else {
            push_str(&mut out, "](");
            push_str(&mut out, refs[n].path.as_str());
        }
        push_str(&mut out, ")");
        assert(out@ =~= before + reference_text(refs@[n as int].alt@, refs@[n as int].path@, name));
        if n + 1 < gaps.len() {
            push_str(&mut out, gaps[n + 1].as_str());
        }
        assert(out@ =~= before + reference_text(refs@[n as int].alt@, refs@[n as int].path@, name)
            + gap_at(views(gaps@), n + 1));
        n += 1;
    }
    from_chars(out.as_slice())
}

/// Goes through the image references `refs` of a document, whose other text
/// is `gaps`, and says what to do next. `existing` are the names in the
/// assets directory before anything was copied; `outcomes` holds, for each
/// copy asked for so far, whether it was made. A reference stays as written
/// if it points at the web, if its image cannot be looked for, or if the
/// copy was not made; else it is rewritten to `assets/` and the name of the
/// copy, the same name for every reference with the same path.
pub fn rewrite_images(
    gaps: &Vec<String>,
    refs: &Vec<ImageRef>,
    base_dir: Option<&str>,
    assets_dir: &str,
    existing: &Vec<String>,
    outcomes: &Vec<bool>,
) -> (r: AssetStep)
    ensures
        is_step(
            r,
            views(gaps@),
            refs_view(refs@),
            dir_view(base_dir),
            assets_dir@,
            views(existing@),
            outcomes@,
        ),
{
    let ghost references = references_of(refs_view(refs@));
    let ghost base = dir_view(base_dir);
    let ghost full = resolve_from(
        initial_state(views(existing@)),
        references,
        0,
        base,
        assets_dir@,
        outcomes@,
    );
    let mut taken = clone_names(existing);
    let mut names: Vec<(String, String)> = Vec::new();
    let mut copied: Vec<String> = Vec::new();
    let mut decided: Vec<Option<String>> = Vec::new();
    let mut used: usize = 0;
    let mut i: usize = 0;
    assert(initial_state(views(existing@)) =~= AssetState {
        taken: views(taken@),
        names: pairs_view(names@),
        copied: views(copied@),
        decided: options_view(decided@),
        used: 0,
    });
    while i < refs.len()
        invariant
            i <= refs.len(),
            used <= outcomes.len(),
            references == references_of(refs_view(refs@)),
            base == dir_view(base_dir),
            full == resolve_from(
                initial_state(views(existing@)),
                references,
                0,
                base,
                assets_dir@,
                outcomes@,
            ),
            full == resolve_from(
                AssetState {
                    taken: views(taken@),
                    names: pairs_view(names@),
                    copied: views(copied@),
                    decided: options_view(decided@),
                    used: used as int,
                },
                references,
                i as int,
                base,
                assets_dir@,
                outcomes@,
            ),
        decreases refs.len() - i,
    {
        let ghost state = AssetState {
            taken: views(taken@),
            names: pairs_view(names@),
            copied: views(copied@),
            decided: options_view(decided@),
            used: used as int,
        };
        let reference = trim(refs[i].path.as_str());
        assert(references[i as int] == reference@);
        let mut verdict: Option<String> = None;
        if !is_remote_reference(reference.as_str()) {
            match lookup(&names, reference.as_str()) {
                Some(name) => {
                    verdict = Some(name);
                },
                None => {
                    match resolve_image_path(reference.as_str(), base_dir) {
                        Some(source) => {
                            let base_name = match file_name(source.as_str()) {
                                Some(n) => n,
                                None => "image".to_owned(),
                            };
                            let name = make_unique_name(base_name.as_str(), &taken);
                            assert(decision(state, reference@, base) == Decision::Copy(
                                source@,
                                name@,
                            ));
                            if used >= outcomes.len() {
                                let target = join(assets_dir, name.as_str());
                                return AssetStep::Copy { source, name, target };
                            }
                            let made = outcomes[used];
                            used += 1;
                            if made {
                                let target = join(assets_dir, name.as_str());
                                proof {
                                    lemma_views_push(taken@, name);
                                    lemma_views_push(copied@, target);
                                    assert(pairs_view(names@.push((reference, name)))
                                        =~= pairs_view(names@).push((reference@, name@)));
                                    assert(options_view(decided@.push(Some(name)))
                                        =~= options_view(decided@).push(Some(name@)));
                                }
                                taken.push(name.clone());
                                names.push((reference, name.clone()));
                                copied.push(target);
                                decided.push(Some(name));
                            } else {
                                proof {
                                    assert(options_view(decided@.push(None)) =~= options_view(
                                        decided@,
                                    ).push(None));
                                }
                                decided.push(None);
                            }
                            i += 1;
                            continue ;
                        },
                        None => {},
                    }
                },
            }
        }
        proof {
            assert(options_view(decided@.push(verdict)) =~= options_view(decided@).push(
                option_view(verdict),
            ));
        }
        decided.push(verdict);
        i += 1;
    }
    let rewritten = render_text(gaps, refs, &decided);
    AssetStep::Done { copied, rewritten }
}

/// What the message of an image pattern that does not compile says.
pub open spec fn pattern_refused() -> Seq<char> {
    "Failed to compile regex"@
}

/// Finds the image references of `content` and says what to do next about
/// them, as [`rewrite_images`] does for the references and the text between
/// them.
///
/// Succeeds, whatever the text and the directories, where the image
/// pattern compiles; fails with an error that says so where it does not.
pub fn extract_and_copy_images(
    content: &str,
    base_dir: Option<&str>,
    assets_dir: &str,
    existing: &Vec<String>,
    outcomes: &Vec<bool>,
) -> (r: Result<AssetStep, PipelineError>)
    ensures
        match r {
            Ok(step) => pattern_compiles(image_pattern()) && is_step(
                step,
                image_gaps(content@, 0),
                image_refs(content@, 0),
                dir_view(base_dir),
                assets_dir@,
                views(existing@),
                outcomes@,
            ),
            Err(e) => !pattern_compiles(image_pattern()) && (e matches PipelineError::Io(reason)
                && reason@ == pattern_refused()),
        },
{
    let pattern = "!\\[(?P<alt>[^\\]]*)\\]\\((?P<path>[^)]+)\\)";
    let refs = match pattern_captures(pattern, content) {
        Some(refs) => refs,
        None => {
            return Err(PipelineError::Io("Failed to compile regex".to_owned()));
        },
    };
    let gaps = match pattern_gaps(pattern, content) {
        Some(gaps) => gaps,
        None => {
            return Err(PipelineError::Io("Failed to compile regex".to_owned()));
        },
    };
    Ok(rewrite_images(&gaps, &refs, base_dir, assets_dir, existing, outcomes))
}

/// The names of the copies in `names`.
pub open spec fn names_of(names: Seq<(Seq<char>, Seq<char>)>) -> Seq<Seq<char>> {
    Seq::new(names.len(), |i: int| names[i].1)
}

/// What holds of every state that going through references reaches from a
/// directory that held `initial`: each copied reference has one copy, each
/// copy has a name of its own that the directory did not hold before, the
/// directory holds what it held and the copies, and each rewritten
/// reference points at the copy made for its path.
pub open spec fn is_consistent(
    state: AssetState,
    references: Seq<Seq<char>>,
    initial: Seq<Seq<char>>,
) -> bool {
    &&& state.copied.len() == state.names.len()
    &&& state.taken == initial + names_of(state.names)
    &&& forall|i: int, j: int|
        0 <= i < j < state.names.len() ==> (#[trigger] state.names[i]).0 != (
        #[trigger] state.names[j]).0
    &&& forall|i: int, j: int|
        0 <= i < j < state.names.len() ==> (#[trigger] state.names[i]).1 != (
        #[trigger] state.names[j]).1
    &&& forall|i: int|
        0 <= i < state.names.len() ==> !initial.contains((#[trigger] state.names[i]).1)
    &&& state.decided.len() <= references.len()
    &&& forall|i: int|
        0 <= i < state.decided.len() ==> (#[trigger] state.decided[i] matches Some(name)
            ==> assigned(state.names, references[i]) == Some(name))
}

/// The name chosen for a copy is none of the names in the directory.
pub proof fn lemma_unique_name_is_new(base: Seq<char>, taken: Seq<Seq<char>>)
    ensures
        !taken.contains(unique_name(base, taken)),
{
    lemma_last_index_bounds(base, '.');
    lemma_free_name(base, name_prefix(base), name_suffix(base), taken);
}

proof fn lemma_assigned(names: Seq<(Seq<char>, Seq<char>)>, reference: Seq<char>)
    ensures
        assigned(names, reference) is None ==> forall|i: int|
            0 <= i < names.len() ==> (#[trigger] names[i]).0 != reference,
        assigned(names, reference) matches Some(name) ==> exists|i: int|
            0 <= i < names.len() && #[trigger] names[i] == (reference, name),
    decreases names.len(),
{
    if names.len() > 0 {
        if names.last().0 == reference {
            assert(names[names.len() - 1] == (reference, names.last().1));
        } else {
            let front = names.drop_last();
            lemma_assigned(front, reference);
            match assigned(front, reference) {
                Some(name) => {
                    let i = choose|i: int|
                        0 <= i < front.len() && #[trigger] front[i] == (reference, name);
                    assert(names[i] == (reference, name));
                },
                None => {
                    assert forall|i: int| 0 <= i < names.len() implies (#[trigger] names[i]).0
                        != reference by {
                        if i < front.len() {
                            assert(front[i] == names[i]);
                        }
                    }
                },
            }
        }
    }
}

proof fn lemma_after_copy_consistent(
    state: AssetState,
    references: Seq<Seq<char>>,
    initial: Seq<Seq<char>>,
    name: Seq<char>,
    assets_dir: Seq<char>,
)
    requires
        is_consistent(state, references, initial),
        state.decided.len() < references.len(),
        assigned(state.names, references[state.decided.len() as int]) is None,
        !state.taken.contains(name),
    ensures
        is_consistent(
            after_copy(state, references[state.decided.len() as int], name, assets_dir),
            references,
            initial,
        ),
{
    let reference = references[state.decided.len() as int];
    let next = after_copy(state, reference, name, assets_dir);
    let n = state.names.len() as int;
    lemma_assigned(state.names, reference);
    assert(next.taken =~= initial + names_of(next.names));
    assert forall|i: int| 0 <= i < n implies (#[trigger] next.names[i]).1 != name by {
        assert(state.taken[initial.len() + i] == state.names[i].1);
    }
    assert(!initial.contains(name)) by {
        if initial.contains(name) {
            let p = choose|p: int| 0 <= p < initial.len() && initial[p] == name;
            assert(state.taken[p] == name);
        }
    }
    assert forall|i: int| 0 <= i < next.decided.len() implies (
    #[trigger] next.decided[i] matches Some(
        m,
    ) ==> assigned(next.names, references[i]) == Some(m)) by {
        assert(next.names.drop_last() =~= state.names);
        if i < state.decided.len() {
            assert(next.decided[i] == state.decided[i]);
        }
    }
}

/// Every state reached is consistent, and a copy that is asked for has a
/// name that the directory does not hold at that time.
pub proof fn lemma_resolve_consistent(
    state: AssetState,
    references: Seq<Seq<char>>,
    i: int,
    base_dir: Option<Seq<char>>,
    assets_dir: Seq<char>,
    outcomes: Seq<bool>,
    initial: Seq<Seq<char>>,
)
    requires
        is_consistent(state, references, initial),
        state.decided.len() == i,
    ensures
        is_consistent(
            resolve_from(state, references, i, base_dir, assets_dir, outcomes).state,
            references,
            initial,
        ),
        resolve_from(state, references, i, base_dir, assets_dir, outcomes).request matches Some(
            (_, name),
        ) ==> !resolve_from(
            state,
            references,
            i,
            base_dir,
            assets_dir,
            outcomes,
        ).state.taken.contains(name),
        resolve_from(state, references, i, base_dir, assets_dir, outcomes).request is None
            ==> resolve_from(state, references, i, base_dir, assets_dir, outcomes).state.decided.len()
            == references.len(),
    decreases references.len() - i,
{
    if 0 <= i < references.len() {
        let reference = references[i];
        match decision(state, reference, base_dir) {
            Decision::Keep => {
                let next = after_decided(state, None);
                assert forall|k: int| 0 <= k < next.decided.len() implies (
                #[trigger] next.decided[k] matches Some(
                    m,
                ) ==> assigned(next.names, references[k]) == Some(m)) by {
                    if k < state.decided.len() {
                        assert(next.decided[k] == state.decided[k]);
                    }
                }
                lemma_resolve_consistent(
                    next,
                    references,
                    i + 1,
                    base_dir,
                    assets_dir,
                    outcomes,
                    initial,
                );
            },
            Decision::Reuse(name) => {
                let next = after_decided(state, Some(name));
                assert forall|k: int| 0 <= k < next.decided.len() implies (
                #[trigger] next.decided[k] matches Some(
                    m,
                ) ==> assigned(next.names, references[k]) == Some(m)) by {
                    if k < state.decided.len() {
                        assert(next.decided[k] == state.decided[k]);
                    }
                }
                lemma_resolve_consistent(
                    next,
                    references,
                    i + 1,
                    base_dir,
                    assets_dir,
                    outcomes,
                    initial,
                );
            },
            Decision::Copy(source, name) => {
                lemma_unique_name_is_new(source_name(source), state.taken);
                if state.used < 0 || state.used >= outcomes.len() {
                } else if outcomes[state.used] {
                    lemma_after_copy_consistent(state, references, initial, name, assets_dir);
                    lemma_resolve_consistent(
                        after_copy(state, reference, name, assets_dir),
                        references,
                        i + 1,
                        base_dir,
                        assets_dir,
                        outcomes,
                        initial,
                    );
                } else {
                    let next = after_failure(state);
                    assert forall|k: int| 0 <= k < next.decided.len() implies (
                    #[trigger] next.decided[k] matches Some(
                        m,
                    ) ==> assigned(next.names, references[k]) == Some(m)) by {
                        if k < state.decided.len() {
                            assert(next.decided[k] == state.decided[k]);
                        }
                    }
                    lemma_resolve_consistent(
                        next,
                        references,
                        i + 1,
                        base_dir,
                        assets_dir,
                        outcomes,
                        initial,
                    );
                }
            },
        }
    }
}

/// One copy is made for each path that is copied at all, and references
/// with the same path that are rewritten point at the same copy.
pub proof fn lemma_one_copy_per_path(
    existing: Seq<Seq<char>>,
    references: Seq<Seq<char>>,
    base_dir: Option<Seq<char>>,
    assets_dir: Seq<char>,
    outcomes: Seq<bool>,
    i: int,
    j: int,
)
    ensures
        ({
            let state = resolve_from(
                initial_state(existing),
                references,
                0,
                base_dir,
                assets_dir,
                outcomes,
            ).state;
            &&& state.copied.len() == state.names.len()
            &&& (0 <= i < j < state.names.len() ==> state.names[i].0 != state.names[j].0)
            &&& (0 <= i < state.decided.len() && 0 <= j < state.decided.len() && references[i]
                == references[j] && state.decided[i] is Some && state.decided[j] is Some
                ==> state.decided[i] == state.decided[j])
        }),
{
    let initial = initial_state(existing);
    assert(initial.taken =~= existing + names_of(initial.names));
    lemma_resolve_consistent(initial, references, 0, base_dir, assets_dir, outcomes, existing);
}

/// No copy is given the name of a file that the directory held before, or
/// of another copy; and a copy that is asked for has a name that the
/// directory, with the copies made so far, does not hold.
pub proof fn lemma_copy_names_are_new(
    existing: Seq<Seq<char>>,
    references: Seq<Seq<char>>,
    base_dir: Option<Seq<char>>,
    assets_dir: Seq<char>,
    outcomes: Seq<bool>,
    i: int,
    j: int,
)
    ensures
        ({
            let out = resolve_from(
                initial_state(existing),
                references,
                0,
                base_dir,
                assets_dir,
                outcomes,
            );
            &&& out.state.taken == existing + names_of(out.state.names)
            &&& (0 <= i < out.state.names.len() ==> !existing.contains(out.state.names[i].1))
            &&& (0 <= i < j < out.state.names.len() ==> out.state.names[i].1
                != out.state.names[j].1)
            &&& (out.request matches Some((_, name)) ==> !out.state.taken.contains(name))
        }),
{
    let initial = initial_state(existing);
    assert(initial.taken =~= existing + names_of(initial.names));
    lemma_resolve_consistent(initial, references, 0, base_dir, assets_dir, outcomes, existing);
}

/// No decision on any reference.
pub open spec fn undecided() -> Seq<Option<Seq<char>>> {
    Seq::empty()
}

proof fn lemma_render_first(
    gap: Seq<char>,
    gaps: Seq<Seq<char>>,
    first: (Seq<char>, Seq<char>),
    refs: Seq<(Seq<char>, Seq<char>)>,
    n: nat,
)
    requires
        n <= refs.len(),
    ensures
        render(seq![gap] + gaps, seq![first] + refs, undecided(), n + 1) == gap + reference_text(
            first.0,
            first.1,
            None,
        ) + render(gaps, refs, undecided(), n),
    decreases n,
{
    let all_gaps = seq![gap] + gaps;
    let all_refs = seq![first] + refs;
    assert(all_refs[0] == first);
    assert(gap_at(all_gaps, 0) == gap);
    assert(gap_at(all_gaps, n as int + 1) == gap_at(gaps, n as int)) by {
        if n < gaps.len() {
            assert(all_gaps[n as int + 1] == gaps[n as int]);
        }
    }
    if n == 0 {
        assert(render(all_gaps, all_refs, undecided(), 0) == gap);
        assert(render(all_gaps, all_refs, undecided(), 1) == render(
            all_gaps,
            all_refs,
            undecided(),
            0,
        ) + reference_text(first.0, first.1, None) + gap_at(all_gaps, 1int));
    } else {
        lemma_render_first(gap, gaps, first, refs, (n - 1) as nat);
        assert(all_refs[n as int] == refs[n - 1]);
        let head = gap + reference_text(first.0, first.1, None);
        let before = render(gaps, refs, undecided(), (n - 1) as nat);
        let piece = reference_text(refs[n - 1].0, refs[n - 1].1, None) + gap_at(gaps, n as int);
        assert((head + before) + reference_text(refs[n - 1].0, refs[n - 1].1, None) + gap_at(
            gaps,
            n as int,
        ) =~= head + (before + reference_text(refs[n - 1].0, refs[n - 1].1, None) + gap_at(
            gaps,
            n as int,
        )));
    }
}

proof fn lemma_reassemble_from(s: Seq<char>, from: int)
    requires
        0 <= from <= s.len(),
    ensures
        image_gaps(s, from).len() == image_refs(s, from).len() + 1,
        render(
            image_gaps(s, from),
            image_refs(s, from),
            undecided(),
            image_refs(s, from).len(),
        ) == s.subrange(from, s.len() as int),
    decreases s.len() - from,
{
    lemma_next_image_bounds(s, from);
    match next_image(s, from) {
        Some((i, j, k)) => {
            lemma_image_at(s, from);
            lemma_reassemble_from(s, k + 1);
            let gap = s.subrange(from, i);
            let first = (s.subrange(i + 2, j), s.subrange(j + 2, k));
            let gaps = image_gaps(s, k + 1);
            let refs = image_refs(s, k + 1);
            lemma_render_first(gap, gaps, first, refs, refs.len());
            reveal_strlit("![");
            reveal_strlit("](");
            reveal_strlit(")");
            assert(reference_text(first.0, first.1, None) =~= s.subrange(i, k + 1));
            assert(gap + s.subrange(i, k + 1) + s.subrange(k + 1, s.len() as int) =~= s.subrange(
                from,
                s.len() as int,
            ));
        },
        None => {},
    }
}

/// The reference found from `from` on begins with `![`, has `](` where its
/// alt text ends and `)` where its path ends.
proof fn lemma_image_at(s: Seq<char>, from: int)
    requires
        0 <= from,
    ensures
        next_image(s, from) matches Some((i, j, k)) ==> s[i] == '!' && s[i + 1] == '[' && s[j]
            == ']' && s[j + 1] == '(' && s[k] == ')',
    decreases s.len() - from,
{
    if from < s.len() {
        match image_at(s, from) {
            Some((j, k)) => {
                lemma_find_char_bounds(s, ']', from + 2);
                lemma_find_char_bounds(s, ')', j + 2);
            },
            None => {
                lemma_image_at(s, from + 1);
            },
        }
    }
}

/// The pieces between the references of a text are one more than the
/// references, and a text whose references all stay as written is put
/// together again as it was.
pub proof fn lemma_references_reassemble(content: Seq<char>)
    ensures
        image_gaps(content, 0).len() == image_refs(content, 0).len() + 1,
        render(
            image_gaps(content, 0),
            image_refs(content, 0),
            undecided(),
            image_refs(content, 0).len(),
        ) == content,
{
    lemma_reassemble_from(content, 0);
    assert(content.subrange(0, content.len() as int) =~= content);
}

} // verus!
