//! What one note says: its title, headings, tags, aliases and links.
//!
//! Headings come from the markdown parser, because a heading's *text* is what a `#heading`
//! link points at. Links and tags are scanned from the source instead, with code blanked out:
//! `[[note]]` is a reference link as far as CommonMark is concerned, so by the time it reaches
//! a text event its brackets are gone.

use crate::paths::{extension, extension_in, file_name, file_stem, name_in, stem_in};
use crate::text::{
    alphabetic, alphanumeric, as_opt, ascii_lower, begins, char_at, chars_before, chars_of, class,
    ends, find_from, is_alphabetic, is_alphanumeric, is_space, is_space_char, lines, lines_of,
    occurs_at, opt_str, opt_text, ordered, owned, pieces, same, skip_while, sort_unique, split_any,
    split_once, split_once_any, starts_with, string_of, strip_prefix, strip_suffix, texts,
    to_ascii_lower, trim, trim_by, trim_in, trim_start, trim_start_in, trimmed, trimmed_start,
};
use pulldown_cmark::{Event, Options, Parser, Tag, TagEnd};
use vstd::prelude::*;
use vstd::string::*;

verus! {

/// One link out of a note.
#[derive(Debug, Clone, PartialEq, Eq)]
pub struct Link {
    /// The note or file being pointed at, with any alias and heading stripped off.
    pub target: String,
    /// The `#heading` part, when there was one.
    pub heading: Option<String>,
    /// `![[...]]` rather than `[[...]]`.
    pub embed: bool,
}

/// A link, as text.
pub struct LinkView {
    pub target: Seq<char>,
    pub heading: Option<Seq<char>>,
    pub embed: bool,
}

impl View for Link {
    type V = LinkView;

    open spec fn view(&self) -> LinkView {
        LinkView { target: self.target@, heading: opt_text(self.heading), embed: self.embed }
    }
}

/// Links, as text.
pub open spec fn link_views(ls: Seq<Link>) -> Seq<LinkView> {
    Seq::new(ls.len(), |i: int| ls[i]@)
}

#[derive(Debug, Clone, PartialEq, Eq)]
pub struct Note {
    /// Relative to the vault root, so the index survives the vault moving.
    pub path: String,
    /// First H1, else the file stem.
    pub title: String,
    pub mtime: u64,
    pub size: u64,
    pub headings: Vec<String>,
    pub tags: Vec<String>,
    pub aliases: Vec<String>,
    pub links: Vec<Link>,
}

/// A note, as text and numbers.
pub struct NoteView {
    pub path: Seq<char>,
    pub title: Seq<char>,
    pub mtime: u64,
    pub size: u64,
    pub headings: Seq<Seq<char>>,
    pub tags: Seq<Seq<char>>,
    pub aliases: Seq<Seq<char>>,
    pub links: Seq<LinkView>,
}

impl View for Note {
    type V = NoteView;

    open spec fn view(&self) -> NoteView {
        NoteView {
            path: self.path@,
            title: self.title@,
            mtime: self.mtime,
            size: self.size,
            headings: texts(self.headings@),
            tags: texts(self.tags@),
            aliases: texts(self.aliases@),
            links: link_views(self.links@),
        }
    }
}

impl NoteView {
    /// The name a `[[wikilink]]` would use.
    pub open spec fn stem_spec(self) -> Seq<char> {
        match file_stem(self.path) {
            Some(s) => s,
            None => Seq::empty(),
        }
    }
}

impl Note {
    /// The name a `[[wikilink]]` would use: the file stem, not the title.
    pub fn stem(&self) -> (r: String)
        ensures
            r@ == self@.stem_spec(),
    {
        match stem_in(self.path.as_str()) {
            Some(s) => s,
            None => String::new(),
        }
    }
}

// -- links -------------------------------------------------------------------

/// Every `\|` as `|`.
pub open spec fn unescaped(s: Seq<char>) -> Seq<char>
    decreases s.len(),
{
    if s.len() == 0 {
        s
    } else if s.len() >= 2 && s[0] == '\\' && s[1] == '|' {
        seq!['|'] + unescaped(s.skip(2))
    } else {
        seq![s[0]] + unescaped(s.skip(1))
    }
}

/// Every `\|` as `|`.
fn unescape(s: &str) -> (r: String)
    ensures
        r@ == unescaped(s@),
{
    let cs = chars_of(s);
    let n: usize = cs.len();
    let mut out = String::new();
    let mut i: usize = 0;
    proof {
        assert(cs@.skip(0) =~= cs@);
        assert(out@ + unescaped(cs@) =~= unescaped(cs@));
    }
    while i < n
        invariant
            n == cs@.len(),
            i <= n,
            out@ + unescaped(cs@.skip(i as int)) == unescaped(cs@),
        decreases n - i,
    {
        let ghost rest = cs@.skip(i as int);
        let ghost before = out@;
        if i + 1 < n && cs[i] == '\\' && cs[i + 1] == '|' {
            out.push('|');
            proof {
                assert(rest[0] == cs@[i as int] && rest[1] == cs@[i as int + 1]);
                assert(rest.skip(2) =~= cs@.skip(i as int + 2));
                assert(before + (seq!['|'] + unescaped(rest.skip(2))) =~= out@ + unescaped(
                    rest.skip(2),
                ));
            }
            i = i + 2;
        } else {
            out.push(cs[i]);
            proof {
                assert(rest[0] == cs@[i as int]);
                if rest.len() >= 2 {
                    assert(rest[1] == cs@[i as int + 1]);
                }
                assert(rest.skip(1) =~= cs@.skip(i as int + 1));
                assert(before + (seq![rest[0]] + unescaped(rest.skip(1))) =~= out@ + unescaped(
                    rest.skip(1),
                ));
            }
            i = i + 1;
        }
    }
    proof {
        assert(cs@.skip(i as int).len() == 0);
        assert(out@ + unescaped(cs@.skip(i as int)) =~= out@);
    }
    out
}

/// The inside of a `[[...]]`, taken apart.
pub struct TargetView {
    pub target: Seq<char>,
    pub heading: Option<Seq<char>>,
    pub alias: Option<Seq<char>>,
}

/// The inside of a `[[...]]`, taken apart: the alias first, and the heading from what is left.
pub open spec fn target_in(inner: Seq<char>) -> TargetView {
    let s = unescaped(inner);
    let (t, alias) = match split_once(s, "|"@) {
        Some((t, a)) => (t, Some(trimmed(a))),
        None => (s, None),
    };
    let (t, heading) = match split_once(t, "#"@) {
        Some((t, h)) => (t, Some(trimmed(h))),
        None => (t, None),
    };
    TargetView { target: trimmed(t), heading, alias }
}

/// Split the inside of a `[[...]]` into target, heading and alias.
///
/// Inside a markdown table a wikilink alias must be written `\|`, and such a link must not
/// resolve to a target with a trailing backslash.
pub fn split_target(inner: &str) -> (r: (String, Option<String>, Option<String>))
    ensures
        target_in(inner@) == (TargetView {
            target: r.0@,
            heading: opt_text(r.1),
            alias: opt_text(r.2),
        }),
{
    let s = unescape(inner);
    let (t, alias) = match split_once_any(s.as_str(), "|") {
        Some((t, a)) => (t, Some(trim(a.as_str()))),
        None => (s, None),
    };
    // `#` splits after the alias, never before: `[[note#heading|shown]]` is a heading link.
    let (t, heading) = match split_once_any(t.as_str(), "#") {
        Some((t, h)) => (t, Some(trim(h.as_str()))),
        None => (t, None),
    };
    (trim(t.as_str()), heading, alias)
}

/// Whether an extension is that of a file a wikilink may point at.
///
/// An allowlist rather than "does it have a dot", because a title may hold one.
pub open spec fn is_link_extension(e: Seq<char>) -> bool {
    ||| e == "md"@
    ||| e == "canvas"@
    ||| e == "base"@
    ||| e == "png"@
    ||| e == "jpg"@
    ||| e == "jpeg"@
    ||| e == "gif"@
    ||| e == "svg"@
    ||| e == "webp"@
    ||| e == "pdf"@
}

/// What a link target resolves against, minus a real file extension.
pub open spec fn stem_of_target(target: Seq<char>) -> Seq<char> {
    let r = if extension(target) matches Some(e) && is_link_extension(ascii_lower(e)) {
        file_stem(target)
    } else {
        file_name(target)
    };
    match r {
        Some(s) => s,
        None => target,
    }
}

/// The stem a link target resolves against, minus a real file extension.
///
/// Path-form links (`[[folder/note]]`) resolve on their last component.
pub fn target_stem(target: &str) -> (r: String)
    ensures
        r@ == stem_of_target(target@),
{
    let is_file = match extension_in(target) {
        Some(e) => {
            let e = to_ascii_lower(e.as_str());
            let e = e.as_str();
            same(e, "md") || same(e, "canvas") || same(e, "base") || same(e, "png") || same(
                e,
                "jpg",
            ) || same(e, "jpeg") || same(e, "gif") || same(e, "svg") || same(e, "webp") || same(
                e,
                "pdf",
            )
        },
        None => false,
    };
    let found = if is_file {
        stem_in(target)
    } else {
        name_in(target)
    };
    match found {
        Some(s) => s,
        None => owned(target),
    }
}

/// Where the `]]` is that closes a link whose inside starts at `j`. A link never spans a line.
pub open spec fn closing(cs: Seq<char>, j: int) -> Option<int>
    decreases cs.len() - j,
{
    if j + 1 >= cs.len() || cs[j] == '\n' {
        None
    } else if cs[j] == ']' && cs[j + 1] == ']' {
        Some(j)
    } else {
        closing(cs, j + 1)
    }
}

/// The link that the inside of a `[[...]]` makes, unless it points at nothing.
pub open spec fn link_in(inner: Seq<char>, embed: bool) -> Option<LinkView> {
    let t = target_in(inner);
    if t.target.len() > 0 || t.heading is Some {
        Some(LinkView { target: t.target, heading: t.heading, embed })
    } else {
        None
    }
}

/// The links from position `i` on.
pub open spec fn links_from(cs: Seq<char>, i: int) -> Seq<LinkView>
    decreases cs.len() - i,
    via links_from_decreases
{
    if i < 0 || i + 1 >= cs.len() {
        Seq::empty()
    } else if cs[i] == '[' && cs[i + 1] == '[' && closing(cs, i + 2) is Some {
        let j = closing(cs, i + 2)->Some_0;
        let rest = links_from(cs, j + 2);
        match link_in(cs.subrange(i + 2, j), i > 0 && cs[i - 1] == '!') {
            Some(l) => seq![l] + rest,
            None => rest,
        }
    } else {
        links_from(cs, i + 1)
    }
}

#[via_fn]
proof fn links_from_decreases(cs: Seq<char>, i: int) {
    if !(i < 0 || i + 1 >= cs.len()) {
        lemma_closing(cs, i + 2);
    }
}

/// A link closes at or after where its inside starts.
proof fn lemma_closing(cs: Seq<char>, j: int)
    ensures
        closing(cs, j) matches Some(k) ==> j <= k < cs.len() - 1,
    decreases cs.len() - j,
{
    if !(j + 1 >= cs.len() || cs[j] == '\n') && !(cs[j] == ']' && cs[j + 1] == ']') {
        lemma_closing(cs, j + 1);
    }
}

/// Every `[[...]]` and `![[...]]` in text whose code has been blanked out.
pub fn scan_links(text: &str) -> (r: Vec<Link>)
    ensures
        link_views(r@) == links_from(text@, 0),
{
    let cs = chars_of(text);
    let n: usize = cs.len();
    let mut out: Vec<Link> = Vec::new();
    let mut i: usize = 0;
    proof {
        assert(link_views(out@) + links_from(cs@, 0) =~= links_from(cs@, 0));
    }
    while n > 1 && i < n - 1
        invariant
            n == cs@.len(),
            cs@ == text@,
            i <= n,
            link_views(out@) + links_from(cs@, i as int) == links_from(cs@, 0),
        decreases n - i,
    {
        if cs[i] == '[' && cs[i + 1] == '[' {
            let embed = i > 0 && cs[i - 1] == '!';
            let start: usize = i + 2;
            let mut j: usize = start;
            while j < n - 1 && cs[j] != '\n' && !(cs[j] == ']' && cs[j + 1] == ']')
                invariant
                    n == cs@.len(),
                    n > 1,
                    start <= j <= n,
                    closing(cs@, start as int) == closing(cs@, j as int),
                decreases n - j,
            {
                j = j + 1;
            }
            if j < n - 1 && cs[j] == ']' {
                let inner = string_of(&cs, start, j);
                let (target, heading, alias) = split_target(inner.as_str());
                let ghost had = link_views(out@);
                let ghost rest = links_from(cs@, j as int + 2);
                if !target.as_str().is_empty() || heading.is_some() {
                    let l = Link { target, heading, embed };
                    out.push(l);
                    proof {
                        assert(link_views(out@) =~= had.push(l@));
                        assert(link_in(inner@, embed) == Some(l@));
                        assert(had + (seq![l@] + rest) =~= link_views(out@) + rest);
                    }
                }
                i = j + 2;
                continue;
            }
        }
        i = i + 1;
    }
    proof {
        assert(links_from(cs@, i as int).len() == 0);
        assert(link_views(out@) + links_from(cs@, i as int) =~= link_views(out@));
    }
    out
}

// -- tags --------------------------------------------------------------------

/// The text from position `i` on, without its wikilinks. A link never spans a line, so a `[[`
/// that its line does not close is text like any other.
pub open spec fn without_links(cs: Seq<char>, i: int) -> Seq<char>
    decreases (if i < cs.len() { cs.len() - i } else { 0 }),
    via without_links_decreases
{
    if i < 0 || i >= cs.len() {
        Seq::empty()
    } else if i + 1 < cs.len() && cs[i] == '[' && cs[i + 1] == '[' && closing(cs, i + 2) is Some {
        without_links(cs, closing(cs, i + 2)->Some_0 + 2)
    } else {
        seq![cs[i]] + without_links(cs, i + 1)
    }
}

#[via_fn]
proof fn without_links_decreases(cs: Seq<char>, i: int) {
    lemma_closing(cs, i + 2);
}

/// The text without its wikilinks.
pub fn strip_wikilinks(text: &str) -> (r: String)
    ensures
        r@ == without_links(text@, 0),
{
    let cs = chars_of(text);
    let n: usize = cs.len();
    let mut out = String::new();
    let mut i: usize = 0;
    proof {
        assert(out@ + without_links(cs@, 0) =~= without_links(cs@, 0));
    }
    while i < n
        invariant
            n == cs@.len(),
            cs@ == text@,
            i <= n,
            out@ + without_links(cs@, i as int) == without_links(cs@, 0),
        decreases n - i,
    {
        let mut close: Option<usize> = None;
        if i < n - 1 && cs[i] == '[' && cs[i + 1] == '[' {
            let mut j: usize = i + 2;
            while j < n - 1 && cs[j] != '\n' && !(cs[j] == ']' && cs[j + 1] == ']')
                invariant
                    n == cs@.len(),
                    n > 1,
                    i + 2 <= j <= n,
                    closing(cs@, i as int + 2) == closing(cs@, j as int),
                decreases n - j,
            {
                j = j + 1;
            }
            if j < n - 1 && cs[j] == ']' {
                close = Some(j);
            }
        }
        if let Some(j) = close {
            i = j + 2;
        } else {
            let ghost before = out@;
            out.push(cs[i]);
            proof {
                assert(before + (seq![cs@[i as int]] + without_links(cs@, i as int + 1))
                    =~= out@ + without_links(cs@, i as int + 1));
            }
            i = i + 1;
        }
    }
    proof {
        assert(out@ + without_links(cs@, i as int) =~= out@);
    }
    out
}

/// A link that is not closed swallows nothing: where no `[[` is closed on its own line, the text
/// without its links is the text.
pub proof fn law_an_unclosed_link_swallows_nothing(cs: Seq<char>, i: int)
    requires
        0 <= i <= cs.len(),
        forall|k: int|
            i <= k && k + 1 < cs.len() && #[trigger] cs[k] == '[' && cs[k + 1] == '[' ==> closing(
                cs,
                k + 2,
            ) is None,
    ensures
        without_links(cs, i) == cs.skip(i),
    decreases cs.len() - i,
{
    if i < cs.len() {
        law_an_unclosed_link_swallows_nothing(cs, i + 1);
        assert(seq![cs[i]] + cs.skip(i + 1) =~= cs.skip(i));
        assert(cs[i] == '[' && i + 1 < cs.len() && cs[i + 1] == '[' ==> closing(cs, i + 2) is None);
    } else {
        assert(cs.skip(i) =~= Seq::<char>::empty());
    }
}

/// A link never spans a line: between where its inside starts and where it closes, the line does
/// not end.
pub proof fn law_a_link_never_spans_a_line(cs: Seq<char>, j: int, k: int)
    requires
        closing(cs, j) is Some,
        j <= k <= closing(cs, j)->Some_0,
    ensures
        cs[k] != '\n',
    decreases cs.len() - j,
{
    if k > j {
        law_a_link_never_spans_a_line(cs, j + 1, k);
    }
}

/// A character that may stand in a tag.
pub open spec fn tag_char(c: char) -> bool {
    alphanumeric(c) || c == '/' || c == '-' || c == '_'
}

/// Where the run of tag characters from `i` ends.
pub open spec fn run_end(cs: Seq<char>, i: int) -> int
    decreases cs.len() - i,
{
    if 0 <= i < cs.len() && tag_char(cs[i]) {
        run_end(cs, i + 1)
    } else {
        i
    }
}

/// The tag that starts with a `#` at `i`, if one does. It must start a word, and `#1` is a
/// number, not a tag.
pub open spec fn tag_at(cs: Seq<char>, i: int) -> Option<Seq<char>> {
    if cs[i] == '#' && (i == 0 || is_space(cs[i - 1])) && run_end(cs, i + 1) > i + 1 && alphabetic(
        cs[i + 1],
    ) {
        Some(cs.subrange(i + 1, run_end(cs, i + 1)))
    } else {
        None
    }
}

/// The tags among the first `n` characters.
pub open spec fn tags_within(cs: Seq<char>, n: int) -> Seq<Seq<char>>
    decreases n,
{
    if n <= 0 {
        Seq::empty()
    } else {
        match tag_at(cs, n - 1) {
            Some(t) => tags_within(cs, n - 1).push(t),
            None => tags_within(cs, n - 1),
        }
    }
}

/// The tags in text that holds no wikilinks.
pub open spec fn tags_in(cs: Seq<char>) -> Seq<Seq<char>> {
    tags_within(cs, cs.len() as int)
}

/// Inline `#tags`.
///
/// Wikilinks are removed first: `[[#Module C]]` is a link to a heading in the same note, and
/// not a tag called `Module`.
pub fn scan_inline_tags(text: &str) -> (r: Vec<String>)
    ensures
        texts(r@) == tags_in(without_links(text@, 0)),
{
    let plain = strip_wikilinks(text);
    let cs = chars_of(plain.as_str());
    let n: usize = cs.len();
    let mut out: Vec<String> = Vec::new();
    let mut i: usize = 0;
    proof {
        assert(texts(out@) =~= tags_within(cs@, 0));
    }
    while i < n
        invariant
            n == cs@.len(),
            i <= n,
            texts(out@) == tags_within(cs@, i as int),
        decreases n - i,
    {
        if cs[i] == '#' && (i == 0 || is_space_char(cs[i - 1])) {
            let start: usize = i + 1;
            let mut j: usize = start;
            while j < n && (is_alphanumeric(cs[j]) || cs[j] == '/' || cs[j] == '-' || cs[j] == '_')
                invariant
                    n == cs@.len(),
                    start <= j <= n,
                    run_end(cs@, start as int) == run_end(cs@, j as int),
                decreases n - j,
            {
                j = j + 1;
            }
            proof {
                assert(run_end(cs@, start as int) == j);
            }
            if j > start && is_alphabetic(cs[start]) {
                let ghost had = texts(out@);
                out.push(string_of(&cs, start, j));
                proof {
                    assert(texts(out@) =~= had.push(cs@.subrange(start as int, j as int)));
                }
            }
        }
        i = i + 1;
    }
    out
}

// -- frontmatter -------------------------------------------------------------

/// Which list the lines under a key go to.
#[derive(Debug, Clone, Copy, PartialEq, Eq, Structural)]
pub enum Bucket {
    Nothing,
    Tags,
    Aliases,
}

/// What has been read of a frontmatter block.
pub struct FrontView {
    pub tags: Seq<Seq<char>>,
    pub aliases: Seq<Seq<char>>,
    pub collecting: Bucket,
}

impl FrontView {
    /// The same, with more in one of its lists.
    pub open spec fn with(self, b: Bucket, more: Seq<Seq<char>>) -> FrontView {
        match b {
            Bucket::Nothing => self,
            Bucket::Tags => FrontView { tags: self.tags + more, ..self },
            Bucket::Aliases => FrontView { aliases: self.aliases + more, ..self },
        }
    }
}

/// A value without the quotes around it.
pub open spec fn unquoted(s: Seq<char>) -> Seq<char> {
    trim_by(s, class("\"'"@, false))
}

/// The items of an inline array.
pub open spec fn array_items(parts: Seq<Seq<char>>) -> Seq<Seq<char>>
    decreases parts.len(),
{
    if parts.len() == 0 {
        Seq::empty()
    } else {
        let item = unquoted(trimmed(parts.last()));
        if item.len() > 0 {
            array_items(parts.drop_last()).push(item)
        } else {
            array_items(parts.drop_last())
        }
    }
}

/// The list a key belongs to.
pub open spec fn bucket_of(key: Seq<char>) -> Bucket {
    if key == "tags"@ {
        Bucket::Tags
    } else if key == "aliases"@ || key == "alias"@ {
        Bucket::Aliases
    } else {
        Bucket::Nothing
    }
}

/// Whether a line starts a key: not indented, not a list item, and with a colon in it.
pub open spec fn is_key_line(line: Seq<char>) -> bool {
    &&& !(line.len() > 0 && is_space(line[0]))
    &&& !begins(trimmed_start(line), "-"@)
    &&& split_once(line, ":"@) is Some
}

/// The inside of an inline array.
pub open spec fn array_inside(rest: Seq<char>) -> Option<Seq<char>> {
    if begins(rest, "["@) && ends(rest.skip(1), "]"@) {
        Some(rest.skip(1).drop_last())
    } else {
        None
    }
}

/// What one line adds.
pub open spec fn front_step(f: FrontView, line: Seq<char>) -> FrontView {
    if is_key_line(line) {
        let (k, v) = split_once(line, ":"@)->Some_0;
        let rest = trimmed(v);
        let b = bucket_of(trimmed(k));
        let g = FrontView { collecting: Bucket::Nothing, ..f };
        match array_inside(rest) {
            Some(inner) => g.with(b, array_items(pieces(inner, ","@))),
            None => if rest.len() == 0 {
                FrontView { collecting: b, ..f }
            } else {
                g.with(b, seq![unquoted(rest)])
            },
        }
    } else if begins(trimmed(line), "-"@) {
        let item = unquoted(trimmed(trimmed(line).skip(1)));
        if item.len() > 0 {
            f.with(f.collecting, seq![item])
        } else {
            f
        }
    } else {
        f
    }
}

/// What the lines of a frontmatter block come to.
pub open spec fn front_of(ls: Seq<Seq<char>>) -> FrontView
    decreases ls.len(),
{
    if ls.len() == 0 {
        FrontView { tags: Seq::empty(), aliases: Seq::empty(), collecting: Bucket::Nothing }
    } else {
        front_step(front_of(ls.drop_last()), ls.last())
    }
}

/// Push an item on the list a bucket names.
fn file_item(tags: &mut Vec<String>, aliases: &mut Vec<String>, b: Bucket, item: String)
    ensures
        texts(final(tags)@) == texts(old(tags)@) + (if b == Bucket::Tags {
            seq![item@]
        } else {
            Seq::empty()
        }),
        texts(final(aliases)@) == texts(old(aliases)@) + (if b == Bucket::Aliases {
            seq![item@]
        } else {
            Seq::empty()
        }),
{
    match b {
        Bucket::Nothing => {},
        Bucket::Tags => {
            tags.push(item);
        },
        Bucket::Aliases => {
            aliases.push(item);
        },
    }
    proof {
        assert(texts(tags@) =~= texts(old(tags)@) + (if b == Bucket::Tags {
            seq![item@]
        } else {
            Seq::empty()
        }));
        assert(texts(aliases@) =~= texts(old(aliases)@) + (if b == Bucket::Aliases {
            seq![item@]
        } else {
            Seq::empty()
        }));
    }
}

/// The items of an inline array.
fn read_array(inner: &str) -> (r: Vec<String>)
    ensures
        texts(r@) == array_items(pieces(inner@, ","@)),
{
    let parts = split_any(inner, ",");
    let ghost ps = pieces(inner@, ","@);
    let mut out: Vec<String> = Vec::new();
    let mut i: usize = 0;
    proof {
        assert(texts(out@) =~= array_items(ps.take(0)));
    }
    while i < parts.len()
        invariant
            i <= parts@.len(),
            texts(parts@) == ps,
            texts(out@) == array_items(ps.take(i as int)),
        decreases parts@.len() - i,
    {
        let t = trim(parts[i].as_str());
        let item = trim_in(t.as_str(), "\"'", false);
        proof {
            assert(ps[i as int] == parts@[i as int]@);
            assert(ps.take(i as int + 1).drop_last() =~= ps.take(i as int));
            assert(ps.take(i as int + 1).last() == ps[i as int]);
        }
        if !item.as_str().is_empty() {
            let ghost had = texts(out@);
            out.push(item);
            proof {
                assert(texts(out@) =~= had.push(item@));
            }
        }
        i = i + 1;
    }
    proof {
        assert(ps.take(ps.len() as int) =~= ps);
    }
    out
}

/// Pull `tags:` and `aliases:` out of a YAML frontmatter block.
///
/// Handles the two forms that occur: an inline array and a `-` list under the key.
/// Deliberately not a YAML parser.
pub fn parse_frontmatter(block: &str) -> (r: (Vec<String>, Vec<String>))
    ensures
        texts(r.0@) == front_of(lines_of(block@)).tags,
        texts(r.1@) == front_of(lines_of(block@)).aliases,
{
    let ls = lines(block);
    let ghost all = lines_of(block@);
    let mut tags: Vec<String> = Vec::new();
    let mut aliases: Vec<String> = Vec::new();
    let mut collecting: Bucket = Bucket::Nothing;
    let mut i: usize = 0;
    proof {
        assert(texts(tags@) =~= front_of(all.take(0)).tags);
        assert(texts(aliases@) =~= front_of(all.take(0)).aliases);
    }
    while i < ls.len()
        invariant
            i <= ls@.len(),
            texts(ls@) == all,
            front_of(all.take(i as int)) == (FrontView {
                tags: texts(tags@),
                aliases: texts(aliases@),
                collecting,
            }),
        decreases ls@.len() - i,
    {
        let line = ls[i].as_str();
        let ghost f = front_of(all.take(i as int));
        proof {
            assert(all[i as int] == line@);
            assert(all.take(i as int + 1).drop_last() =~= all.take(i as int));
            assert(all.take(i as int + 1).last() == line@);
        }
        let cs = chars_of(line);
        let indented = cs.len() > 0 && is_space_char(cs[0]);
        let lead = trim_start(line);
        let split = split_once_any(line, ":");
        if !indented && !starts_with(lead.as_str(), "-") && split.is_some() {
            if let Some((k, v)) = split {
                let rest = trim(v.as_str());
                let key = trim(k.as_str());
                let b: Bucket = if same(key.as_str(), "tags") {
                    Bucket::Tags
                } else if same(key.as_str(), "aliases") || same(key.as_str(), "alias") {
                    Bucket::Aliases
                } else {
                    Bucket::Nothing
                };
                collecting = Bucket::Nothing;
                let inside: Option<String> = match strip_prefix(rest.as_str(), "[") {
                    Some(r) => strip_suffix(r.as_str(), "]"),
                    None => None,
                };
                proof {
                    reveal_strlit("[");
                    reveal_strlit("]");
                    if inside is Some {
                        assert(inside->Some_0@ =~= rest@.skip(1).drop_last());
                    }
                }
                match inside {
                    Some(inner) => {
                        let mut items = read_array(inner.as_str());
                        let ghost more = texts(items@);
                        let ghost tags0 = tags@;
                        let ghost aliases0 = aliases@;
                        match b {
                            Bucket::Nothing => {},
                            Bucket::Tags => {
                                tags.append(&mut items);
                                proof {
                                    assert(texts(tags@) =~= texts(tags0) + more);
                                }
                            },
                            Bucket::Aliases => {
                                aliases.append(&mut items);
                                proof {
                                    assert(texts(aliases@) =~= texts(aliases0) + more);
                                }
                            },
                        }
                    },
                    None => {
                        if rest.as_str().is_empty() {
                            // A `-` list follows.
                            collecting = b;
                        } else {
                            let item = trim_in(rest.as_str(), "\"'", false);
                            let ghost t0 = texts(tags@);
                            let ghost a0 = texts(aliases@);
                            file_item(&mut tags, &mut aliases, b, item);
                            proof {
                                assert(t0 + Seq::<Seq<char>>::empty() =~= t0);
                                assert(a0 + Seq::<Seq<char>>::empty() =~= a0);
                            }
                        }
                    },
                }
            }
        } else {
            let t = trim(line);
            match strip_prefix(t.as_str(), "-") {
                Some(rest) => {
                    proof {
                        reveal_strlit("-");
                    }
                    let u = trim(rest.as_str());
                    let item = trim_in(u.as_str(), "\"'", false);
                    if !item.as_str().is_empty() {
                        let ghost t0 = texts(tags@);
                        let ghost a0 = texts(aliases@);
                        file_item(&mut tags, &mut aliases, collecting, item);
                        proof {
                            assert(t0 + Seq::<Seq<char>>::empty() =~= t0);
                            assert(a0 + Seq::<Seq<char>>::empty() =~= a0);
                        }
                    }
                },
                None => {},
            }
        }
        i = i + 1;
    }
    proof {
        assert(all.take(all.len() as int) =~= all);
    }
    (tags, aliases)
}

// -- a whole note ------------------------------------------------------------

/// Tables and strikethrough, as bits of pulldown-cmark's options.
pub const MARKDOWN_OPTIONS: u32 = 10;

/// What a piece of markdown is, as far as a note is concerned.
#[derive(Debug, Clone, PartialEq, Eq)]
pub enum MarkKind {
    /// A heading starts, at this level.
    HeadingStart(u32),
    HeadingEnd,
    Text(String),
    /// Code within a line.
    Code,
    CodeBlock,
    Other,
}

/// One event of the markdown parser, with the bytes of the source that it covers.
#[derive(Debug, Clone, PartialEq, Eq)]
pub struct Mark {
    pub kind: MarkKind,
    pub start: usize,
    pub end: usize,
}

/// A kind of mark, as text.
pub enum MarkKindView {
    HeadingStart(u32),
    HeadingEnd,
    Text(Seq<char>),
    Code,
    CodeBlock,
    Other,
}

/// A mark, as text and numbers.
pub struct MarkView {
    pub kind: MarkKindView,
    pub start: usize,
    pub end: usize,
}

impl View for Mark {
    type V = MarkView;

    open spec fn view(&self) -> MarkView {
        MarkView {
            kind: match self.kind {
                MarkKind::HeadingStart(l) => MarkKindView::HeadingStart(l),
                MarkKind::HeadingEnd => MarkKindView::HeadingEnd,
                MarkKind::Text(t) => MarkKindView::Text(t@),
                MarkKind::Code => MarkKindView::Code,
                MarkKind::CodeBlock => MarkKindView::CodeBlock,
                MarkKind::Other => MarkKindView::Other,
            },
            start: self.start,
            end: self.end,
        }
    }
}

/// Marks, as text and numbers.
pub open spec fn mark_views(ms: Seq<Mark>) -> Seq<MarkView> {
    Seq::new(ms.len(), |i: int| ms[i]@)
}

/// The events that pulldown-cmark's parser yields for a source, under the given options.
pub uninterp spec fn markdown(source: Seq<char>, options: u32) -> Seq<MarkView>;

/// `Parser::new_ext` of pulldown-cmark with its offset iterator, each event one mark. What the
/// parser makes of a source is CommonMark and is only named here.
#[verifier::external_body]
pub(crate) fn read_markdown(source: &str, options: u32) -> (r: Vec<Mark>)
    ensures
        mark_views(r@) == markdown(source@, options),
{
    let opts = Options::from_bits_truncate(options);
    Parser::new_ext(source, opts).into_offset_iter().map(|(ev, at)| {
        let kind = match ev {
            Event::Start(Tag::Heading { level, .. }) => MarkKind::HeadingStart(level as u32),
            Event::End(TagEnd::Heading(_)) => MarkKind::HeadingEnd,
            Event::Text(t) => MarkKind::Text(t.to_string()),
            Event::Code(_) => MarkKind::Code,
            Event::Start(Tag::CodeBlock(_)) => MarkKind::CodeBlock,
            _ => MarkKind::Other,
        };
        Mark { kind, start: at.start, end: at.end }
    }).collect()
}

/// Text with part of it blanked out. Line breaks stay.
pub open spec fn blanked(s: Seq<char>, from: int, to: int) -> Seq<char> {
    Seq::new(
        s.len(),
        |i: int|
            if from <= i < to && s[i] != '\n' {
                ' '
            } else {
                s[i]
            },
    )
}

/// What has been read of a note's body.
pub struct BodyView {
    pub depth: Option<u32>,
    pub heading: Seq<char>,
    pub first_h1: Option<Seq<char>>,
    pub headings: Seq<Seq<char>>,
    pub masked: Seq<char>,
}

/// What one mark adds.
pub open spec fn body_step(b: BodyView, m: MarkView, body: Seq<char>) -> BodyView {
    match m.kind {
        MarkKindView::HeadingStart(level) => BodyView {
            depth: Some(level),
            heading: Seq::empty(),
            ..b
        },
        MarkKindView::HeadingEnd => {
            let text = trimmed(b.heading);
            if text.len() > 0 {
                BodyView {
                    depth: None,
                    first_h1: if b.depth == Some(1u32) && b.first_h1 is None {
                        Some(text)
                    } else {
                        b.first_h1
                    },
                    headings: b.headings.push(text),
                    ..b
                }
            } else {
                BodyView { depth: None, ..b }
            }
        },
        MarkKindView::Text(t) => if b.depth is Some {
            BodyView { heading: b.heading + t, ..b }
        } else {
            b
        },
        MarkKindView::Code | MarkKindView::CodeBlock => BodyView {
            masked: blanked(
                b.masked,
                chars_before(body, m.start as int),
                chars_before(body, m.end as int),
            ),
            ..b
        },
        MarkKindView::Other => b,
    }
}

/// What a list of marks comes to.
pub open spec fn body_of(marks: Seq<MarkView>, body: Seq<char>) -> BodyView
    decreases marks.len(),
{
    if marks.len() == 0 {
        BodyView {
            depth: None,
            heading: Seq::empty(),
            first_h1: None,
            headings: Seq::empty(),
            masked: body,
        }
    } else {
        body_step(body_of(marks.drop_last(), body), marks.last(), body)
    }
}

/// A text with its frontmatter cut off, and the frontmatter, where there is one.
pub struct SplitView {
    pub front: Option<Seq<char>>,
    pub body: Seq<char>,
}

/// Without any number of repetitions of `p` at the start.
pub open spec fn without_prefixes(s: Seq<char>, p: Seq<char>) -> Seq<char>
    decreases s.len(),
{
    if p.len() > 0 && begins(s, p) {
        without_prefixes(s.skip(p.len() as int), p)
    } else {
        s
    }
}

/// Where frontmatter that has been opened is closed: before the first line that starts with
/// three dashes.
pub open spec fn fence_at(rest: Seq<char>, k: int) -> bool {
    occurs_at(rest, "\n---"@, k) && forall|j: int|
        0 <= j < k ==> !occurs_at(rest, "\n---"@, j)
}

/// Whether frontmatter that has been opened is closed at all.
pub open spec fn is_fenced(rest: Seq<char>) -> bool {
    exists|k: int| fence_at(rest, k)
}

/// A note's text, taken apart: frontmatter between a first line of three dashes and the next
/// such line, and the body after it.
pub open spec fn split_note(text: Seq<char>) -> SplitView {
    let rest = text.skip(4);
    if begins(text, "---\n"@) && is_fenced(rest) {
        let k = choose|k: int| fence_at(rest, k);
        let after = skip_while(rest.skip(k + 4), class("\n"@, false));
        SplitView { front: Some(rest.take(k)), body: without_prefixes(after, "-\n"@) }
    } else {
        SplitView { front: None, body: text }
    }
}

/// The note that its parts come to.
pub open spec fn note_of(
    front: Option<Seq<char>>,
    body: Seq<char>,
    marks: Seq<MarkView>,
    stem: Seq<char>,
) -> NoteView {
    let f = match front {
        Some(block) => front_of(lines_of(block)),
        None => front_of(Seq::empty()),
    };
    let b = body_of(marks, body);
    NoteView {
        path: Seq::empty(),
        title: match b.first_h1 {
            Some(t) => t,
            None => stem,
        },
        mtime: 0,
        size: 0,
        headings: b.headings,
        tags: ordered(f.tags + tags_in(without_links(b.masked, 0))),
        aliases: f.aliases,
        links: links_from(b.masked, 0),
    }
}

/// The note that a text comes to.
pub open spec fn parsed(text: Seq<char>, stem: Seq<char>) -> NoteView {
    let s = split_note(text);
    note_of(s.front, s.body, markdown(s.body, MARKDOWN_OPTIONS), stem)
}

/// Cut the frontmatter off a note's text.
pub fn split_front(text: &str) -> (r: (Option<String>, String))
    ensures
        split_note(text@) == (SplitView { front: opt_text(r.0), body: r.1@ }),
{
    proof {
        reveal_strlit("---\n");
        reveal_strlit("\n---");
        reveal_strlit("-\n");
    }
    match strip_prefix(text, "---\n") {
        Some(rest) => {
            let cs = chars_of(rest.as_str());
            let fence = chars_of("\n---");
            match find_from(&cs, &fence, 0) {
                Some(k) => {
                    proof {
                        assert(fence_at(rest@, k as int));
                        let c = choose|c: int| fence_at(rest@, c);
                        assert(fence_at(rest@, c));
                        if c < k {
                            assert(!occurs_at(rest@, "\n---"@, c));
                        }
                        if k < c {
                            assert(!occurs_at(rest@, "\n---"@, k as int));
                        }
                        assert(rest@ == text@.skip(4));
                    }
                    let front = string_of(&cs, 0, k);
                    let n: usize = cs.len();
                    let after = string_of(&cs, k + 4, n);
                    proof {
                        assert(front@ =~= rest@.take(k as int));
                        assert(after@ =~= rest@.skip(k + 4));
                    }
                    let mut body = trim_start_in(after.as_str(), "\n", false);
                    let ghost whole = body@;
                    loop
                        invariant
                            without_prefixes(whole, "-\n"@) == without_prefixes(
                                body@,
                                "-\n"@,
                            ),
                            "-\n"@.len() == 2,
                        ensures
                            body@ == without_prefixes(whole, "-\n"@),
                        decreases body@.len(),
                    {
                        match strip_prefix(body.as_str(), "-\n") {
                            Some(less) => {
                                body = less;
                            },
                            None => {
                                break;
                            },
                        }
                    }
                    (Some(front), body)
                },
                None => {
                    proof {
                        assert(rest@ == text@.skip(4));
                        assert(!is_fenced(rest@));
                    }
                    (None, owned(text))
                },
            }
        },
        None => (None, owned(text)),
    }
}

/// A note, from its frontmatter, its body, and what the markdown parser made of the body.
pub fn read_note(front: Option<&str>, body: &str, marks: &Vec<Mark>, stem: &str) -> (r: Note)
    ensures
        r@ == note_of(opt_str(front), body@, mark_views(marks@), stem@),
{
    let (mut tags, aliases) = match front {
        Some(block) => parse_frontmatter(block),
        None => (Vec::new(), Vec::new()),
    };
    proof {
        if front is None {
            assert(texts(tags@) =~= front_of(Seq::empty()).tags);
            assert(texts(aliases@) =~= front_of(Seq::empty()).aliases);
        }
    }
    let ghost ftags = texts(tags@);
    let ghost ms = mark_views(marks@);
    let source = chars_of(body);
    let mut masked = chars_of(body);
    let mut depth: Option<u32> = None;
    let mut heading = String::new();
    let mut first_h1: Option<String> = None;
    let mut headings: Vec<String> = Vec::new();
    let mut i: usize = 0;
    proof {
        assert(texts(headings@) =~= Seq::<Seq<char>>::empty());
        assert(ms.take(0) =~= Seq::<MarkView>::empty());
    }
    while i < marks.len()
        invariant
            i <= marks@.len(),
            ms == mark_views(marks@),
            source@ == body@,
            masked@.len() == body@.len(),
            body_of(ms.take(i as int), body@) == (BodyView {
                depth,
                heading: heading@,
                first_h1: opt_text(first_h1),
                headings: texts(headings@),
                masked: masked@,
            }),
        decreases marks@.len() - i,
    {
        let m = &marks[i];
        proof {
            assert(ms[i as int] == m@);
            assert(ms.take(i as int + 1).drop_last() =~= ms.take(i as int));
            assert(ms.take(i as int + 1).last() == m@);
        }
        match &m.kind {
            MarkKind::HeadingStart(level) => {
                depth = Some(*level);
                heading = String::new();
            },
            MarkKind::HeadingEnd => {
                let text = trim(heading.as_str());
                if !text.as_str().is_empty() {
                    let top = match depth {
                        Some(l) => l == 1,
                        None => false,
                    };
                    if top && first_h1.is_none() {
                        first_h1 = Some(text.clone());
                    }
                    let ghost had = texts(headings@);
                    headings.push(text);
                    proof {
                        assert(texts(headings@) =~= had.push(text@));
                    }
                }
                depth = None;
            },
            MarkKind::Text(t) => {
                if depth.is_some() {
                    heading.append(t.as_str());
                }
            },
            MarkKind::Code | MarkKind::CodeBlock => {
                // Blank out code so a fenced block full of `[[x]]` reads as what it is:
                // documentation about links, not links.
                let from: usize = char_at(&source, m.start);
                let to: usize = char_at(&source, m.end);
                let ghost before = masked@;
                let mut k: usize = from;
                while k < to
                    invariant
                        from <= k,
                        k <= to || k == from,
                        to <= masked@.len(),
                        masked@.len() == before.len(),
                        forall|j: int|
                            0 <= j < before.len() ==> #[trigger] masked@[j] == (if from <= j < k
                                && before[j] != '\n' {
                                ' '
                            } else {
                                before[j]
                            }),
                    decreases to - k,
                {
                    if masked[k] != '\n' {
                        masked.set(k, ' ');
                    }
                    k = k + 1;
                }
                proof {
                    assert(masked@ =~= blanked(before, from as int, to as int));
                }
            },
            MarkKind::Other => {},
        }
        i = i + 1;
    }
    proof {
        assert(ms.take(ms.len() as int) =~= ms);
    }
    let title = match first_h1 {
        Some(t) => t,
        None => owned(stem),
    };
    let scannable = string_of(&masked, 0, masked.len());
    proof {
        assert(masked@.subrange(0, masked@.len() as int) =~= masked@);
    }
    let links = scan_links(scannable.as_str());
    let mut inline = scan_inline_tags(scannable.as_str());
    let ghost found = texts(inline@);
    tags.append(&mut inline);
    proof {
        assert(texts(tags@) =~= ftags + found);
    }
    let tags = sort_unique(&tags);
    Note { path: String::new(), title, mtime: 0, size: 0, headings, tags, aliases, links }
}

/// Everything the index keeps about one file, from its text.
pub fn parse(text: &str, stem: &str) -> (r: Note)
    ensures
        r@ == parsed(text@, stem@),
{
    let (front, body) = split_front(text);
    let marks = read_markdown(body.as_str(), MARKDOWN_OPTIONS);
    read_note(as_opt(&front), body.as_str(), &marks, stem)
}

} // verus!
