//! The metadata block at the head of a Markdown document: finding it, and
//! merging new entries into it.
//!
//! A document has front matter when its first line is `---` and a later line
//! is `---` again; the lines between the two are the block, the text after
//! the second is the body. A line of the block that does not begin with a
//! blank and holds a colon opens an entry, named by the text before the
//! colon; the lines after it, up to the next such line, belong to it.

use vstd::prelude::*;
use crate::error::PipelineError;
use crate::text::{
    chars_eq, contains_line, copy_range, find_char, find_from, from_chars, lemma_find_char_bounds,
    lemma_find_char_is, lemma_lines_view_add, lines_view, push_chars, push_str, starts_with,
    to_chars,
};

verus! {

/// A metadata value, shaped as JSON values are. A number is held as the text
/// that writes it.
#[derive(Debug)]
pub enum MetaValue {
    Null,
    Bool(bool),
    Number(String),
    String(String),
    Array(Vec<MetaValue>),
    Object(Vec<(String, MetaValue)>),
}

/// The position of the first line break of `s` at or after `from`, or the
/// length of `s` if there is none.
pub open spec fn line_end(s: Seq<char>, from: int) -> int {
    find_char(s, '\n', from)
}

/// The delimiter line of a front-matter block.
pub open spec fn fence() -> Seq<char> {
    seq!['-', '-', '-']
}

/// The lines of the block that closes at the first `---` line at or after
/// `from`, and the position where the body begins; `None` if no line from
/// there on is `---`.
pub open spec fn parse_block(s: Seq<char>, from: int) -> Option<(Seq<Seq<char>>, int)>
    decreases s.len() - from,
{
    if from < 0 || from > s.len() {
        None
    } else {
        let end = line_end(s, from);
        let line = s.subrange(from, end);
        if line == fence() {
            Some((Seq::empty(), if end < s.len() { end + 1 } else { end }))
        } else if end >= s.len() {
            None
        } else {
            proof {
                lemma_find_char_bounds(s, '\n', from);
            }
            match parse_block(s, end + 1) {
                Some((lines, body)) => Some((seq![line] + lines, body)),
                None => None,
            }
        }
    }
}

/// The opening of a document with front matter: a `---` line.
pub open spec fn opening() -> Seq<char> {
    seq!['-', '-', '-', '\n']
}

/// The block of `content` and the position where its body begins, if
/// `content` has front matter.
pub open spec fn front_matter(content: Seq<char>) -> Option<(Seq<Seq<char>>, int)> {
    if opening().is_prefix_of(content) {
        parse_block(content, 4)
    } else {
        None
    }
}

/// Whether `line` opens an entry.
pub open spec fn is_key_line(line: Seq<char>) -> bool {
    line.len() > 0 && line[0] != ' ' && line[0] != '\t' && line.contains(':')
}

/// The name of the entry that `line` opens: the text before its first colon.
pub open spec fn key_of(line: Seq<char>) -> Seq<char> {
    line.take(find_char(line, ':', 0))
}

/// The lines of `lines` that stay when every entry named in `keys` is taken
/// out. `dropping` says whether the lines before the first entry go too.
pub open spec fn keep_lines(lines: Seq<Seq<char>>, keys: Seq<Seq<char>>, dropping: bool) -> Seq<
    Seq<char>,
>
    decreases lines.len(),
{
    if lines.len() == 0 {
        Seq::empty()
    } else {
        let line = lines[0];
        let d = if is_key_line(line) {
            keys.contains(key_of(line))
        } else {
            dropping
        };
        let rest = keep_lines(lines.drop_first(), keys, d);
        if d {
            rest
        } else {
            seq![line] + rest
        }
    }
}

/// The lines that write the text items of a list, one `  - item` line each.
/// Items that are not text are left out.
pub open spec fn item_lines(items: Seq<MetaValue>) -> Seq<Seq<char>>
    decreases items.len(),
{
    if items.len() == 0 {
        Seq::empty()
    } else {
        let rest = item_lines(items.drop_last());
        match items.last() {
            MetaValue::String(s) => rest.push(seq![' ', ' ', '-', ' '] + s@),
            _ => rest,
        }
    }
}

/// The lines that write one entry: `key: value` for text, a number or a
/// truth value; `key:` and the item lines for a list with at least one text
/// item; nothing for any other value.
pub open spec fn entry_lines(key: Seq<char>, value: MetaValue) -> Seq<Seq<char>> {
    match value {
        MetaValue::String(s) => seq![key + seq![':', ' '] + s@],
        MetaValue::Number(n) => seq![key + seq![':', ' '] + n@],
        MetaValue::Bool(b) => seq![
            key + seq![':', ' '] + (if b {
                seq!['t', 'r', 'u', 'e']
            } else {
                seq!['f', 'a', 'l', 's', 'e']
            }),
        ],
        MetaValue::Array(items) => {
            let lines = item_lines(items@);
            if lines.len() == 0 {
                Seq::empty()
            } else {
                seq![key + seq![':']] + lines
            }
        },
        _ => Seq::empty(),
    }
}

/// The lines that write all of `entries`, in order.
pub open spec fn entries_lines(entries: Seq<(String, MetaValue)>) -> Seq<Seq<char>>
    decreases entries.len(),
{
    if entries.len() == 0 {
        Seq::empty()
    } else {
        entries_lines(entries.drop_last()) + entry_lines(entries.last().0@, entries.last().1)
    }
}

/// The names of the entries of `entries` that are written at all.
pub open spec fn written_keys(entries: Seq<(String, MetaValue)>) -> Seq<Seq<char>>
    decreases entries.len(),
{
    if entries.len() == 0 {
        Seq::empty()
    } else {
        let rest = written_keys(entries.drop_last());
        if entry_lines(entries.last().0@, entries.last().1).len() > 0 {
            rest.push(entries.last().0@)
        } else {
            rest
        }
    }
}

/// The text of a block: each line followed by a line break.
pub open spec fn block_text(lines: Seq<Seq<char>>) -> Seq<char>
    decreases lines.len(),
{
    if lines.len() == 0 {
        Seq::empty()
    } else {
        lines[0] + seq!['\n'] + block_text(lines.drop_first())
    }
}

/// The block of a document after `entries` are merged into `old_block`:
/// the old lines without the entries that `entries` write anew, then the
/// lines of `entries`.
pub open spec fn merged_block(old_block: Seq<Seq<char>>, entries: Seq<(String, MetaValue)>) -> Seq<
    Seq<char>,
> {
    keep_lines(old_block, written_keys(entries), false) + entries_lines(entries)
}

/// The body of a document that had front matter, as it follows the merged
/// block: without its first line if that line is empty.
pub open spec fn body_after(content: Seq<char>, body: int) -> Seq<char> {
    if body < content.len() && content[body] == '\n' {
        content.skip(body + 1)
    } else {
        content.skip(body)
    }
}

/// The document after `entries` are merged into its front matter. With no
/// front matter the block of `entries` is put before the text, an empty line
/// between them. `None` if `entries` write nothing: the document stays.
pub open spec fn merged_document(content: Seq<char>, entries: Seq<(String, MetaValue)>) -> Option<
    Seq<char>,
> {
    if entries_lines(entries).len() == 0 {
        None
    } else {
        match front_matter(content) {
            Some((block, body)) => Some(
                opening() + block_text(merged_block(block, entries)) + opening() + body_after(
                    content,
                    body,
                ),
            ),
            None => Some(
                opening() + block_text(entries_lines(entries)) + opening() + seq!['\n'] + content,
            ),
        }
    }
}

/// `pre` put before the lines of a parsed block.
pub open spec fn prepend(pre: Seq<Seq<char>>, parsed: Option<(Seq<Seq<char>>, int)>) -> Option<
    (Seq<Seq<char>>, int),
> {
    match parsed {
        Some((lines, body)) => Some((pre + lines, body)),
        None => None,
    }
}

fn fence_chars() -> (v: Vec<char>)
    ensures
        v@ == fence(),
{
    let mut v: Vec<char> = Vec::new();
    v.push('-');
    v.push('-');
    v.push('-');
    assert(v@ =~= fence());
    v
}

fn opening_chars() -> (v: Vec<char>)
    ensures
        v@ == opening(),
{
    let mut v: Vec<char> = Vec::new();
    v.push('-');
    v.push('-');
    v.push('-');
    v.push('\n');
    assert(v@ =~= opening());
    v
}

/// Finds the front matter of `s`: the lines of its block and the position
/// where its body begins.
pub fn read_front_matter(s: &[char]) -> (r: Option<(Vec<Vec<char>>, usize)>)
    ensures
        match r {
            Some((lines, body)) => front_matter(s@) == Some((lines_view(lines@), body as int))
                && body <= s.len(),
            None => front_matter(s@).is_none(),
        },
{
    let open = opening_chars();
    if !starts_with(s, open.as_slice()) {
        return None;
    }
    let closing = fence_chars();
    let mut lines: Vec<Vec<char>> = Vec::new();
    let mut from: usize = 4;
    assert(prepend(lines_view(lines@), parse_block(s@, 4)) == parse_block(s@, 4)) by {
        match parse_block(s@, 4) {
            Some((l, b)) => {
                assert(lines_view(lines@) + l =~= l);
            },
            None => {},
        }
    }
    loop
        invariant
            4 <= from <= s.len(),
            closing@ == fence(),
            front_matter(s@) == parse_block(s@, 4),
            parse_block(s@, 4) == prepend(lines_view(lines@), parse_block(s@, from as int)),
        decreases s.len() - from,
    {
        let end = find_from(s, '\n', from);
        let line = copy_range(s, from, end);
        if chars_eq(line.as_slice(), closing.as_slice()) {
            assert(lines_view(lines@) + Seq::<Seq<char>>::empty() =~= lines_view(lines@));
            let body = if end < s.len() {
                end + 1
            } else {
                end
            };
            return Some((lines, body));
        }
        if end >= s.len() {
            return None;
        }
        proof {
            let pre = lines_view(lines@);
            match parse_block(s@, end + 1) {
                Some((l, b)) => {
                    assert(pre + (seq![line@] + l) =~= pre.push(line@) + l);
                },
                None => {},
            }
            assert(lines_view(lines@.push(line)) =~= pre.push(line@));
        }
        lines.push(line);
        from = end + 1;
    }
}

/// What is kept of `block` when the entries named in `keys` are taken out.
pub fn keep_other_entries(block: &Vec<Vec<char>>, keys: &Vec<Vec<char>>) -> (r: Vec<Vec<char>>)
    ensures
        lines_view(r@) == keep_lines(lines_view(block@), lines_view(keys@), false),
{
    let mut out: Vec<Vec<char>> = Vec::new();
    let mut dropping = false;
    let mut i: usize = 0;
    assert(lines_view(block@).skip(0) =~= lines_view(block@));
    assert(lines_view(out@) + keep_lines(lines_view(block@), lines_view(keys@), false)
        =~= keep_lines(lines_view(block@), lines_view(keys@), false));
    while i < block.len()
        invariant
            i <= block.len(),
            keep_lines(lines_view(block@), lines_view(keys@), false) == lines_view(out@)
                + keep_lines(lines_view(block@).skip(i as int), lines_view(keys@), dropping),
        decreases block.len() - i,
    {
        let line = &block[i];
        let colon = find_from(line.as_slice(), ':', 0);
        proof {
            lemma_find_char_bounds(line@, ':', 0);
            if colon < line.len() {
                assert(line@.contains(line@[colon as int]));
            }
        }
        let ghost rest = lines_view(block@).skip(i as int);
        assert(rest[0] == line@);
        assert(rest.drop_first() =~= lines_view(block@).skip(i + 1));
        if line.len() > 0 && line[0] != ' ' && line[0] != '\t' && colon < line.len() {
            let key = copy_range(line.as_slice(), 0, colon);
            dropping = contains_line(keys, key.as_slice());
        }
        if !dropping {
            let copy = copy_range(line.as_slice(), 0, line.len());
            assert(copy@ =~= line@);
            proof {
                let kept = keep_lines(lines_view(block@).skip(i + 1), lines_view(keys@), dropping);
                assert(lines_view(out@) + (seq![line@] + kept) =~= lines_view(out@.push(copy))
                    + kept);
            }
            out.push(copy);
        }
        i += 1;
    }
    assert(lines_view(out@) + Seq::<Seq<char>>::empty() =~= lines_view(out@));
    out
}

fn render_items(items: &Vec<MetaValue>) -> (r: Vec<Vec<char>>)
    ensures
        lines_view(r@) == item_lines(items@),
{
    let mut out: Vec<Vec<char>> = Vec::new();
    let mut i: usize = 0;
    assert(lines_view(out@) =~= item_lines(items@.take(0)));
    while i < items.len()
        invariant
            i <= items.len(),
            lines_view(out@) == item_lines(items@.take(i as int)),
        decreases items.len() - i,
    {
        assert(items@.take(i + 1).drop_last() =~= items@.take(i as int));
        assert(items@.take(i + 1).last() == items@[i as int]);
        match &items[i] {
            MetaValue::String(s) => {
                let mut line: Vec<char> = Vec::new();
                line.push(' ');
                line.push(' ');
                line.push('-');
                line.push(' ');
                push_str(&mut line, s.as_str());
                assert(line@ =~= seq![' ', ' ', '-', ' '] + s@);
                assert(lines_view(out@.push(line)) =~= lines_view(out@).push(line@));
                out.push(line);
            },
            _ => {},
        }
        i += 1;
    }
    assert(items@.take(items.len() as int) =~= items@);
    out
}

fn scalar_line(key: &str, text: &[char]) -> (r: Vec<char>)
    ensures
        r@ == key@ + seq![':', ' '] + text@,
{
    let mut line: Vec<char> = Vec::new();
    push_str(&mut line, key);
    line.push(':');
    line.push(' ');
    push_chars(&mut line, text);
    assert(line@ =~= key@ + seq![':', ' '] + text@);
    line
}

fn truth_chars(b: bool) -> (r: Vec<char>)
    ensures
        r@ == (if b {
            seq!['t', 'r', 'u', 'e']
        } else {
            seq!['f', 'a', 'l', 's', 'e']
        }),
{
    let mut v: Vec<char> = Vec::new();
    if b {
        v.push('t');
        v.push('r');
        v.push('u');
        v.push('e');
        assert(v@ =~= seq!['t', 'r', 'u', 'e']);
    } else {
        v.push('f');
        v.push('a');
        v.push('l');
        v.push('s');
        v.push('e');
        assert(v@ =~= seq!['f', 'a', 'l', 's', 'e']);
    }
    v
}

/// The lines that write one entry.
pub fn render_entry(key: &str, value: &MetaValue) -> (r: Vec<Vec<char>>)
    ensures
        lines_view(r@) == entry_lines(key@, *value),
{
    let mut out: Vec<Vec<char>> = Vec::new();
    match value {
        MetaValue::String(s) => {
            let text = to_chars(s.as_str());
            let line = scalar_line(key, text.as_slice());
            out.push(line);
            assert(lines_view(out@) =~= seq![key@ + seq![':', ' '] + s@]);
        },
        MetaValue::Number(n) => {
            let text = to_chars(n.as_str());
            let line = scalar_line(key, text.as_slice());
            out.push(line);
            assert(lines_view(out@) =~= seq![key@ + seq![':', ' '] + n@]);
        },
        MetaValue::Bool(b) => {
            let text = truth_chars(*b);
            let line = scalar_line(key, text.as_slice());
            out.push(line);
            assert(lines_view(out@) =~= seq![key@ + seq![':', ' '] + text@]);
        },
        MetaValue::Array(items) => {
            let mut lines = render_items(items);
            if lines.len() > 0 {
                let mut head: Vec<char> = Vec::new();
                push_str(&mut head, key);
                head.push(':');
                assert(head@ =~= key@ + seq![':']);
                out.push(head);
                proof {
                    lemma_lines_view_add(out@, lines@);
                    assert(lines_view(out@) =~= seq![key@ + seq![':']]);
                }
                out.append(&mut lines);
            } else {
                assert(lines_view(out@) =~= Seq::<Seq<char>>::empty());
            }
        },
        _ => {
            assert(lines_view(out@) =~= Seq::<Seq<char>>::empty());
        },
    }
    out
}

/// The lines that write `entries`, and the names of those that are written.
pub fn render_entries(entries: &Vec<(String, MetaValue)>) -> (r: (Vec<Vec<char>>, Vec<Vec<char>>))
    ensures
        lines_view(r.0@) == entries_lines(entries@),
        lines_view(r.1@) == written_keys(entries@),
{
    let mut lines: Vec<Vec<char>> = Vec::new();
    let mut keys: Vec<Vec<char>> = Vec::new();
    let mut i: usize = 0;
    assert(lines_view(lines@) =~= entries_lines(entries@.take(0)));
    assert(lines_view(keys@) =~= written_keys(entries@.take(0)));
    while i < entries.len()
        invariant
            i <= entries.len(),
            lines_view(lines@) == entries_lines(entries@.take(i as int)),
            lines_view(keys@) == written_keys(entries@.take(i as int)),
        decreases entries.len() - i,
    {
        assert(entries@.take(i + 1).drop_last() =~= entries@.take(i as int));
        assert(entries@.take(i + 1).last() == entries@[i as int]);
        let mut more = render_entry(entries[i].0.as_str(), &entries[i].1);
        if more.len() > 0 {
            let key = to_chars(entries[i].0.as_str());
            assert(lines_view(keys@.push(key)) =~= lines_view(keys@).push(key@));
            keys.push(key);
        }
        proof {
            lemma_lines_view_add(lines@, more@);
        }
        lines.append(&mut more);
        i += 1;
    }
    assert(entries@.take(entries.len() as int) =~= entries@);
    (lines, keys)
}

fn push_block(out: &mut Vec<char>, lines: &Vec<Vec<char>>)
    ensures
        final(out)@ == old(out)@ + block_text(lines_view(lines@)),
{
    let mut i: usize = 0;
    assert(lines_view(lines@).skip(0) =~= lines_view(lines@));
    while i < lines.len()
        invariant
            i <= lines.len(),
            old(out)@ + block_text(lines_view(lines@)) == out@ + block_text(
                lines_view(lines@).skip(i as int),
            ),
        decreases lines.len() - i,
    {
        let ghost rest = lines_view(lines@).skip(i as int);
        let ghost before = out@;
        assert(rest[0] == lines@[i as int]@);
        assert(rest.drop_first() =~= lines_view(lines@).skip(i + 1));
        push_chars(out, lines[i].as_slice());
        out.push('\n');
        assert(before + (rest[0] + seq!['\n'] + block_text(rest.drop_first())) =~= out@
            + block_text(rest.drop_first()));
        i += 1;
    }
    assert(out@ + Seq::<char>::empty() =~= out@);
}

/// Merges `metadata` into the front matter of `content` and returns the new
/// text, or `None` where `metadata` writes no entry and the document stays
/// as it is. `metadata` must be a key-value mapping.
pub fn inject_metadata_to_markdown(content: &str, metadata: &MetaValue) -> (r: Result<
    Option<String>,
    PipelineError,
>)
    ensures
        match *metadata {
            MetaValue::Object(entries) => match r {
                Ok(Some(text)) => merged_document(content@, entries@) == Some(text@),
                Ok(None) => merged_document(content@, entries@).is_none(),
                Err(_) => false,
            },
            _ => r matches Err(e) && e is InvalidMetadata,
        },
{
    match metadata {
        MetaValue::Object(entries) => {
            let (mut lines, keys) = render_entries(entries);
            if lines.len() == 0 {
                return Ok(None);
            }
            let s = to_chars(content);
            let open = opening_chars();
            let mut out: Vec<char> = Vec::new();
            push_chars(&mut out, open.as_slice());
            match read_front_matter(s.as_slice()) {
                Some((block, body)) => {
                    let mut merged = keep_other_entries(&block, &keys);
                    proof {
                        lemma_lines_view_add(merged@, lines@);
                    }
                    merged.append(&mut lines);
                    push_block(&mut out, &merged);
                    push_chars(&mut out, open.as_slice());
                    let start = if body < s.len() && s[body] == '\n' {
                        body + 1
                    } else {
                        body
                    };
                    let rest = copy_range(s.as_slice(), start, s.len());
                    push_chars(&mut out, rest.as_slice());
                    assert(rest@ =~= body_after(content@, body as int));
                },
                None => {
                    push_block(&mut out, &lines);
                    push_chars(&mut out, open.as_slice());
                    out.push('\n');
                    push_chars(&mut out, s.as_slice());
                    assert(out@ =~= opening() + block_text(entries_lines(entries@)) + opening()
                        + seq!['\n'] + content@);
                },
            }
            Ok(Some(from_chars(out.as_slice())))
        },
        _ => Err(PipelineError::InvalidMetadata),
    }
}

/// The lines of the front-matter block of `content`; none if it has no
/// front matter.
pub open spec fn block_of(content: Seq<char>) -> Seq<Seq<char>> {
    match front_matter(content) {
        Some((lines, _)) => lines,
        None => Seq::empty(),
    }
}

/// Whether `line` can stand in a block and be read back as one line: it
/// holds no line break and is not the delimiter.
pub open spec fn is_block_line(line: Seq<char>) -> bool {
    !line.contains('\n') && line != fence()
}

/// Whether every line of `lines` can stand in a block.
pub open spec fn are_block_lines(lines: Seq<Seq<char>>) -> bool {
    forall|i: int| 0 <= i < lines.len() ==> is_block_line(#[trigger] lines[i])
}

/// Whether `key` can name an entry: it is not empty, does not begin with a
/// blank, and holds neither a colon nor a line break.
pub open spec fn is_plain_key(key: Seq<char>) -> bool {
    key.len() > 0 && key[0] != ' ' && key[0] != '\t' && !key.contains(':') && !key.contains('\n')
}

/// Whether every text item of `items` is written on one line.
pub open spec fn are_plain_items(items: Seq<MetaValue>) -> bool {
    forall|i: int|
        0 <= i < items.len() ==> (#[trigger] items[i] matches MetaValue::String(s)
            ==> !s@.contains('\n'))
}

/// Whether `value` is written without a line break inside a line.
pub open spec fn is_plain_value(value: MetaValue) -> bool {
    match value {
        MetaValue::String(s) => !s@.contains('\n'),
        MetaValue::Number(n) => !n@.contains('\n'),
        MetaValue::Array(items) => are_plain_items(items@),
        _ => true,
    }
}

/// Whether every entry of `entries` has a plain key and a plain value.
pub open spec fn are_plain_entries(entries: Seq<(String, MetaValue)>) -> bool {
    forall|i: int|
        0 <= i < entries.len() ==> is_plain_key((#[trigger] entries[i]).0@) && is_plain_value(
            entries[i].1,
        )
}

/// Whether taking entries out is still under way after `lines`.
pub open spec fn dropping_after(lines: Seq<Seq<char>>, keys: Seq<Seq<char>>, dropping: bool) -> bool
    decreases lines.len(),
{
    if lines.len() == 0 {
        dropping
    } else {
        let line = lines[0];
        let d = if is_key_line(line) {
            keys.contains(key_of(line))
        } else {
            dropping
        };
        dropping_after(lines.drop_first(), keys, d)
    }
}

/// A block that was written out is read back line by line.
proof fn lemma_parse_written(pre: Seq<char>, lines: Seq<Seq<char>>, rest: Seq<char>)
    requires
        are_block_lines(lines),
    ensures
        parse_block(pre + block_text(lines) + opening() + rest, pre.len() as int) == Some(
            (lines, (pre.len() + block_text(lines).len() + 4) as int),
        ),
    decreases lines.len(),
{
    let s = pre + block_text(lines) + opening() + rest;
    let from = pre.len() as int;
    if lines.len() == 0 {
        assert(block_text(lines) =~= Seq::<char>::empty());
        assert(s[from] == '-');
        assert(s[from + 1] == '-');
        assert(s[from + 2] == '-');
        assert(s[from + 3] == '\n');
        lemma_find_char_is(s, '\n', from, from + 3);
        assert(s.subrange(from, from + 3) =~= fence());
        assert(lines =~= Seq::<Seq<char>>::empty());
    } else {
        let line = lines[0];
        let tail = lines.drop_first();
        assert(is_block_line(line));
        assert(block_text(lines) == line + seq!['\n'] + block_text(tail));
        let end = from + line.len();
        assert forall|i: int| from <= i < end implies s[i] != '\n' by {
            assert(s[i] == line[i - from]);
            assert(line.contains(line[i - from]));
        }
        assert(s[end] == '\n');
        lemma_find_char_is(s, '\n', from, end);
        assert(s.subrange(from, end) =~= line);
        let pre2 = pre + line + seq!['\n'];
        assert(s =~= pre2 + block_text(tail) + opening() + rest);
        assert forall|i: int| 0 <= i < tail.len() implies is_block_line(#[trigger] tail[i]) by {
            assert(tail[i] == lines[i + 1]);
        }
        lemma_parse_written(pre2, tail, rest);
        assert(seq![line] + tail =~= lines);
    }
}

/// The lines of a block that was read hold no line break and are not the
/// delimiter.
proof fn lemma_parsed_lines(s: Seq<char>, from: int)
    requires
        0 <= from <= s.len(),
        parse_block(s, from) is Some,
    ensures
        parse_block(s, from) matches Some((lines, _)) && are_block_lines(lines),
    decreases s.len() - from,
{
    let end = line_end(s, from);
    lemma_find_char_bounds(s, '\n', from);
    let line = s.subrange(from, end);
    if line == fence() {
    } else {
        lemma_parsed_lines(s, end + 1);
        let tail = match parse_block(s, end + 1) {
            Some((lines, _)) => lines,
            None => Seq::empty(),
        };
        let lines = match parse_block(s, from) {
            Some((lines, _)) => lines,
            None => Seq::empty(),
        };
        assert(lines == seq![line] + tail);
        assert(!line.contains('\n')) by {
            if line.contains('\n') {
                let i = choose|i: int| 0 <= i < line.len() && line[i] == '\n';
                assert(s[from + i] == '\n');
            }
        }
        assert forall|i: int| 0 <= i < lines.len() implies is_block_line(#[trigger] lines[i]) by {
            if i > 0 {
                assert(lines[i] == tail[i - 1]);
            }
        }
    }
}

/// What is kept of a block can stand in a block.
proof fn lemma_kept_lines(lines: Seq<Seq<char>>, keys: Seq<Seq<char>>, dropping: bool)
    requires
        are_block_lines(lines),
    ensures
        are_block_lines(keep_lines(lines, keys, dropping)),
    decreases lines.len(),
{
    if lines.len() > 0 {
        let line = lines[0];
        let d = if is_key_line(line) {
            keys.contains(key_of(line))
        } else {
            dropping
        };
        let tail = lines.drop_first();
        assert forall|i: int| 0 <= i < tail.len() implies is_block_line(#[trigger] tail[i]) by {
            assert(tail[i] == lines[i + 1]);
        }
        lemma_kept_lines(tail, keys, d);
        let rest = keep_lines(tail, keys, d);
        let kept = keep_lines(lines, keys, dropping);
        if !d {
            assert(kept == seq![line] + rest);
            assert forall|i: int| 0 <= i < kept.len() implies is_block_line(#[trigger] kept[i]) by {
                if i > 0 {
                    assert(kept[i] == rest[i - 1]);
                }
            }
        }
    }
}

/// No entry that is kept has one of the names that were taken out: where
/// new entries are merged in, the old entries of their names are gone.
pub proof fn lemma_kept_entries_are_others(
    lines: Seq<Seq<char>>,
    keys: Seq<Seq<char>>,
    dropping: bool,
)
    ensures
        forall|i: int|
            0 <= i < keep_lines(lines, keys, dropping).len() && is_key_line(
                #[trigger] keep_lines(lines, keys, dropping)[i],
            ) ==> !keys.contains(key_of(keep_lines(lines, keys, dropping)[i])),
    decreases lines.len(),
{
    if lines.len() > 0 {
        let line = lines[0];
        let d = if is_key_line(line) {
            keys.contains(key_of(line))
        } else {
            dropping
        };
        let rest = keep_lines(lines.drop_first(), keys, d);
        lemma_kept_entries_are_others(lines.drop_first(), keys, d);
        let kept = keep_lines(lines, keys, dropping);
        if !d {
            assert(kept == seq![line] + rest);
            assert forall|i: int| 0 <= i < kept.len() && is_key_line(#[trigger] kept[i]) implies !keys.contains(
                key_of(kept[i]),
            ) by {
                if i > 0 {
                    assert(kept[i] == rest[i - 1]);
                }
            }
        }
    }
}

/// Keeping lines of two blocks put end to end keeps the lines of each.
proof fn lemma_keep_add(a: Seq<Seq<char>>, b: Seq<Seq<char>>, keys: Seq<Seq<char>>, dropping: bool)
    ensures
        keep_lines(a + b, keys, dropping) == keep_lines(a, keys, dropping) + keep_lines(
            b,
            keys,
            dropping_after(a, keys, dropping),
        ),
    decreases a.len(),
{
    if a.len() == 0 {
        assert(a + b =~= b);
        assert(keep_lines(a, keys, dropping) + keep_lines(b, keys, dropping) =~= keep_lines(
            b,
            keys,
            dropping,
        ));
    } else {
        let line = a[0];
        let d = if is_key_line(line) {
            keys.contains(key_of(line))
        } else {
            dropping
        };
        assert((a + b)[0] == line);
        assert((a + b).drop_first() =~= a.drop_first() + b);
        lemma_keep_add(a.drop_first(), b, keys, d);
        let ka = keep_lines(a.drop_first(), keys, d);
        let kb = keep_lines(b, keys, dropping_after(a, keys, dropping));
        if !d {
            assert(seq![line] + (ka + kb) =~= (seq![line] + ka) + kb);
        }
    }
}

/// Taking the same entries out a second time changes nothing.
proof fn lemma_keep_twice(lines: Seq<Seq<char>>, keys: Seq<Seq<char>>, dropping: bool)
    ensures
        keep_lines(keep_lines(lines, keys, dropping), keys, false) == keep_lines(
            lines,
            keys,
            dropping,
        ),
    decreases lines.len(),
{
    if lines.len() > 0 {
        let line = lines[0];
        let d = if is_key_line(line) {
            keys.contains(key_of(line))
        } else {
            dropping
        };
        let tail = lines.drop_first();
        lemma_keep_twice(tail, keys, d);
        if !d {
            let rest = keep_lines(tail, keys, d);
            let kept = seq![line] + rest;
            assert(kept[0] == line);
            assert(kept.drop_first() =~= rest);
        }
    }
}

/// Lines that open no entry go with the entry before them.
proof fn lemma_keep_continuation(lines: Seq<Seq<char>>, keys: Seq<Seq<char>>)
    requires
        forall|i: int| 0 <= i < lines.len() ==> !is_key_line(#[trigger] lines[i]),
    ensures
        keep_lines(lines, keys, true) == Seq::<Seq<char>>::empty(),
    decreases lines.len(),
{
    if lines.len() > 0 {
        let tail = lines.drop_first();
        assert forall|i: int| 0 <= i < tail.len() implies !is_key_line(#[trigger] tail[i]) by {
            assert(tail[i] == lines[i + 1]);
        }
        lemma_keep_continuation(tail, keys);
    }
}

/// Item lines open no entry and can stand in a block.
proof fn lemma_item_lines(items: Seq<MetaValue>)
    requires
        are_plain_items(items),
    ensures
        forall|i: int|
            0 <= i < item_lines(items).len() ==> !is_key_line(#[trigger] item_lines(items)[i])
                && is_block_line(item_lines(items)[i]),
    decreases items.len(),
{
    if items.len() > 0 {
        let front = items.drop_last();
        assert forall|i: int| 0 <= i < front.len() implies (#[trigger] front[i] matches MetaValue::String(
            s,
        ) ==> !s@.contains('\n')) by {
            assert(front[i] == items[i]);
        }
        lemma_item_lines(front);
        match items.last() {
            MetaValue::String(s) => {
                let line = seq![' ', ' ', '-', ' '] + s@;
                assert(items[items.len() - 1] == items.last());
                assert(!s@.contains('\n'));
                assert(line[0] == ' ');
                assert(line.len() >= 4);
                assert(!line.contains('\n')) by {
                    if line.contains('\n') {
                        let i = choose|i: int| 0 <= i < line.len() && line[i] == '\n';
                        assert(i >= 4);
                        assert(s@[i - 4] == '\n');
                    }
                }
                assert(line != fence());
                assert(!is_key_line(line) && is_block_line(line));
                let all = item_lines(items);
                assert(all == item_lines(front).push(line));
                assert forall|i: int| 0 <= i < all.len() implies !is_key_line(#[trigger] all[i])
                    && is_block_line(all[i]) by {
                    if i < item_lines(front).len() {
                        assert(all[i] == item_lines(front)[i]);
                    } else {
                        assert(all[i] == line);
                    }
                }
            },
            _ => {
                assert(item_lines(items) == item_lines(front));
            },
        }
    }
}

/// A `key: value` line opens the entry `key` and can stand in a block.
proof fn lemma_scalar_line(key: Seq<char>, text: Seq<char>)
    requires
        is_plain_key(key),
        !text.contains('\n'),
    ensures
        is_key_line(key + seq![':', ' '] + text),
        key_of(key + seq![':', ' '] + text) == key,
        is_block_line(key + seq![':', ' '] + text),
{
    let line = key + seq![':', ' '] + text;
    let at = key.len() as int;
    assert(line[at] == ':');
    assert(line[0] == key[0]);
    assert forall|i: int| 0 <= i < at implies line[i] != ':' by {
        assert(line[i] == key[i]);
    }
    lemma_find_char_is(line, ':', 0, at);
    assert(line.take(at) =~= key);
    assert(!line.contains('\n')) by {
        if line.contains('\n') {
            let i = choose|i: int| 0 <= i < line.len() && line[i] == '\n';
            if i < at {
                assert(key[i] == '\n');
            } else if i >= at + 2 {
                assert(text[i - at - 2] == '\n');
            }
        }
    }
    assert(line != fence()) by {
        if line == fence() {
            assert(fence().contains(line[at]));
        }
    }
}

/// A `key:` line opens the entry `key` and can stand in a block.
proof fn lemma_head_line(key: Seq<char>)
    requires
        is_plain_key(key),
    ensures
        is_key_line(key + seq![':']),
        key_of(key + seq![':']) == key,
        is_block_line(key + seq![':']),
{
    let line = key + seq![':'];
    let at = key.len() as int;
    assert(line[at] == ':');
    assert(line[0] == key[0]);
    assert forall|i: int| 0 <= i < at implies line[i] != ':' by {
        assert(line[i] == key[i]);
    }
    lemma_find_char_is(line, ':', 0, at);
    assert(line.take(at) =~= key);
    assert(!line.contains('\n')) by {
        if line.contains('\n') {
            let i = choose|i: int| 0 <= i < line.len() && line[i] == '\n';
            if i < at {
                assert(key[i] == '\n');
            }
        }
    }
    assert(line != fence()) by {
        if line == fence() {
            assert(fence().contains(line[at]));
        }
    }
}

/// The lines of one plain entry can stand in a block, and all go when the
/// entry is taken out.
proof fn lemma_entry_lines(key: Seq<char>, value: MetaValue, keys: Seq<Seq<char>>, dropping: bool)
    requires
        is_plain_key(key),
        is_plain_value(value),
        entry_lines(key, value).len() > 0 ==> keys.contains(key),
    ensures
        are_block_lines(entry_lines(key, value)),
        keep_lines(entry_lines(key, value), keys, dropping) == Seq::<Seq<char>>::empty(),
{
    let lines = entry_lines(key, value);
    if lines.len() > 0 {
        let tail = lines.drop_first();
        match value {
            MetaValue::String(s) => {
                lemma_scalar_line(key, s@);
            },
            MetaValue::Number(n) => {
                lemma_scalar_line(key, n@);
            },
            MetaValue::Bool(b) => {
                let text = if b {
                    seq!['t', 'r', 'u', 'e']
                } else {
                    seq!['f', 'a', 'l', 's', 'e']
                };
                lemma_scalar_line(key, text);
            },
            MetaValue::Array(items) => {
                lemma_head_line(key);
                lemma_item_lines(items@);
                assert(tail =~= item_lines(items@));
            },
            _ => {},
        }
        assert(is_key_line(lines[0]) && key_of(lines[0]) == key);
        assert forall|i: int| 0 <= i < tail.len() implies !is_key_line(#[trigger] tail[i]) by {
            match value {
                MetaValue::Array(items) => {},
                _ => {},
            }
        }
        lemma_keep_continuation(tail, keys);
        assert forall|i: int| 0 <= i < lines.len() implies is_block_line(#[trigger] lines[i]) by {
            if i > 0 {
                assert(lines[i] == tail[i - 1]);
            }
        }
    }
}

/// Every name that `entries` write is among their written keys.
proof fn lemma_written_keys_grow(entries: Seq<(String, MetaValue)>, i: int)
    requires
        0 <= i < entries.len(),
        entry_lines(entries[i].0@, entries[i].1).len() > 0,
    ensures
        written_keys(entries).contains(entries[i].0@),
    decreases entries.len(),
{
    let front = entries.drop_last();
    if i == entries.len() - 1 {
        let keys = written_keys(front).push(entries.last().0@);
        assert(keys[keys.len() - 1] == entries[i].0@);
    } else {
        assert(front[i] == entries[i]);
        lemma_written_keys_grow(front, i);
        let k = choose|k: int|
            0 <= k < written_keys(front).len() && written_keys(front)[k] == entries[i].0@;
        assert(written_keys(entries)[k] == entries[i].0@);
    }
}

/// The lines of plain entries can stand in a block, and all go when the
/// entries are taken out.
proof fn lemma_entries_lines(
    entries: Seq<(String, MetaValue)>,
    keys: Seq<Seq<char>>,
    dropping: bool,
)
    requires
        are_plain_entries(entries),
        forall|i: int|
            0 <= i < entries.len() && entry_lines((#[trigger] entries[i]).0@, entries[i].1).len()
                > 0 ==> keys.contains(entries[i].0@),
    ensures
        are_block_lines(entries_lines(entries)),
        keep_lines(entries_lines(entries), keys, dropping) == Seq::<Seq<char>>::empty(),
    decreases entries.len(),
{
    if entries.len() > 0 {
        let front = entries.drop_last();
        let last = entries.last();
        assert(entries[entries.len() - 1] == last);
        assert forall|i: int| 0 <= i < front.len() implies is_plain_key((#[trigger] front[i]).0@)
            && is_plain_value(front[i].1) && (entry_lines(front[i].0@, front[i].1).len() > 0
            ==> keys.contains(front[i].0@)) by {
            assert(front[i] == entries[i]);
        }
        lemma_entries_lines(front, keys, dropping);
        let a = entries_lines(front);
        let b = entry_lines(last.0@, last.1);
        lemma_entry_lines(last.0@, last.1, keys, dropping_after(a, keys, dropping));
        lemma_keep_add(a, b, keys, dropping);
        assert forall|i: int| 0 <= i < (a + b).len() implies is_block_line(#[trigger] (a + b)[i]) by {
            if i < a.len() {
                assert((a + b)[i] == a[i]);
            } else {
                assert((a + b)[i] == b[i - a.len()]);
            }
        }
    }
}

/// Merging the same plain entries into a document a second time leaves its
/// front matter as the first merge made it: the block read from the
/// document after two merges is the block read after one.
pub proof fn lemma_merge_idempotent(content: Seq<char>, entries: Seq<(String, MetaValue)>)
    requires
        are_plain_entries(entries),
        merged_document(content, entries) is Some,
    ensures
        merged_document(merged_document(content, entries)->0, entries) is Some,
        front_matter(merged_document(content, entries)->0) is Some,
        front_matter(merged_document(merged_document(content, entries)->0, entries)->0) is Some,
        block_of(merged_document(merged_document(content, entries)->0, entries)->0) == block_of(
            merged_document(content, entries)->0,
        ),
{
    let keys = written_keys(entries);
    let new_lines = entries_lines(entries);
    assert forall|i: int|
        0 <= i < entries.len() && entry_lines((#[trigger] entries[i]).0@, entries[i].1).len()
            > 0 implies keys.contains(entries[i].0@) by {
        lemma_written_keys_grow(entries, i);
    }
    let kept = match front_matter(content) {
        Some((block, body)) => keep_lines(block, keys, false),
        None => Seq::<Seq<char>>::empty(),
    };
    let rest = match front_matter(content) {
        Some((block, body)) => body_after(content, body),
        None => seq!['\n'] + content,
    };
    let first = kept + new_lines;
    let once = merged_document(content, entries)->0;
    match front_matter(content) {
        Some((block, body)) => {
            lemma_parsed_lines(content, 4);
            lemma_kept_lines(block, keys, false);
            lemma_keep_twice(block, keys, false);
        },
        None => {
            assert(first =~= new_lines);
            assert(once =~= opening() + block_text(first) + opening() + rest);
        },
    }
    assert(once == opening() + block_text(first) + opening() + rest);
    lemma_entries_lines(entries, keys, dropping_after(kept, keys, false));
    lemma_entries_lines(entries, keys, false);
    assert forall|i: int| 0 <= i < first.len() implies is_block_line(#[trigger] first[i]) by {
        if i < kept.len() {
            assert(first[i] == kept[i]);
        } else {
            assert(first[i] == new_lines[i - kept.len()]);
        }
    }
    lemma_parse_written(opening(), first, rest);
    assert(opening().is_prefix_of(once));
    assert(block_of(once) == first);
    // The second merge keeps what the first kept and writes the entries again.
    lemma_keep_add(kept, new_lines, keys, false);
    assert(keep_lines(kept, keys, false) == kept);
    assert(keep_lines(first, keys, false) =~= kept);
    assert(merged_block(first, entries) == first);
    let body2 = match front_matter(once) {
        Some((_, body)) => body,
        None => 0,
    };
    let twice = merged_document(once, entries)->0;
    assert(twice == opening() + block_text(first) + opening() + body_after(once, body2));
    lemma_parse_written(opening(), first, body_after(once, body2));
    assert(opening().is_prefix_of(twice));
}

} // verus!
