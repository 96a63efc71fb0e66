//! Reading and writing a project's notes and files: where they go, what they say, and what a
//! client that asks is told.

use crate::notes::{Note, NoteView};
use crate::paths::{
    file_name, join_path, join_paths, joined_safely, law_a_joined_path_stays_inside, name_in,
    places, safe_join, sort_places, PathError,
};
use crate::state::{Session, SessionView};
use crate::text::{
    begins, byte_len, bytes_in, contains, copy_texts, decimal, lowercase, number, occurs, opt_str,
    opt_text,
    owned, same, texts, trim_end, trim_start, trimmed, trimmed_end,
    trimmed_start,
};
use crate::seqs::{first_where, lemma_first_where_is};
use crate::vault::{
    edges_of, hits, linkers, locate, node_views, nodes_of, note_at, refs, Index, NoteId, VaultGraph,
};
use vstd::prelude::*;
use vstd::string::*;

verus! {

/// The largest picture a client may put in a vault, in bytes.
pub const MAX_ATTACHMENT: usize = 8_388_608;

/// How many notes one pass may parse, across every vault.
pub const VAULT_BUDGET: usize = 40;

/// How many files the browser will list before saying there are too many.
pub const FILE_LIMIT: usize = 4_000;

// -- where notes live --------------------------------------------------------

/// Where a space's notes live: its own vault if it has one, else the home vault.
pub open spec fn root_of(
    s: SessionView,
    space: u64,
    dir: Seq<char>,
    cwd_is_vault: bool,
    configured_is_dir: bool,
    home: Seq<char>,
    home_is_dir: bool,
) -> Option<Seq<char>> {
    if s.has_space(space) && cwd_is_vault {
        Some(s.spaces[s.space_at(space)].cwd)
    } else if s.has_space(space) && configured_is_dir {
        Some(join_path(s.spaces[s.space_at(space)].cwd, dir))
    } else if home_is_dir {
        Some(home)
    } else {
        None
    }
}

/// Where a space's notes live: its own vault if it has one, else the home vault.
pub fn vault_root(
    s: &Session,
    space: u64,
    dir: &str,
    cwd_is_vault: bool,
    configured_is_dir: bool,
    home: &str,
    home_is_dir: bool,
) -> (r: Option<String>)
    ensures
        opt_text(r) == root_of(
            s@,
            space,
            dir@,
            cwd_is_vault,
            configured_is_dir,
            home@,
            home_is_dir,
        ),
{
    if let Some(sp) = s.space(space) {
        if let Some(root) = locate(sp.cwd.as_str(), dir, cwd_is_vault, configured_is_dir) {
            return Some(root);
        }
    }
    if home_is_dir {
        Some(owned(home))
    } else {
        None
    }
}

/// Where a vault would go if one is asked for: the project's configured notes directory, or the
/// home vault when there is no such project.
pub fn vault_init_root(s: &Session, space: u64, dir: &str, home: &str) -> (r: String)
    ensures
        r@ == (if s@.has_space(space) {
            join_path(s@.spaces[s@.space_at(space)].cwd, dir@)
        } else {
            home@
        }),
{
    match s.space(space) {
        Some(sp) => join_paths(sp.cwd.as_str(), dir),
        None => owned(home),
    }
}

/// What is said of a vault that was asked for.
pub open spec fn init_text(root: Seq<char>, fresh: bool) -> Seq<char> {
    if fresh {
        "made a vault at "@ + root
    } else {
        root + " is already a vault"@
    }
}

/// What is said of a vault that was asked for.
pub fn vault_init_notice(root: &str, fresh: bool) -> (r: String)
    ensures
        r@ == init_text(root@, fresh),
{
    if fresh {
        let mut m = owned("made a vault at ");
        m.append(root);
        m
    } else {
        let mut m = owned(root);
        m.append(" is already a vault");
        m
    }
}

/// The directories of a session's spaces, in order.
pub open spec fn space_dirs(s: SessionView) -> Seq<Seq<char>> {
    Seq::new(s.spaces.len(), |i: int| s.spaces[i].cwd)
}

/// The directories of a session's panes, in order.
pub open spec fn pane_dirs(s: SessionView) -> Seq<Seq<char>> {
    Seq::new(s.panes.len(), |i: int| s.panes[i].cwd)
}

/// The directories whose branch is worth knowing: where the spaces and the panes are, in order,
/// each place once.
pub fn repo_dirs(s: &Session) -> (r: Vec<String>)
    ensures
        texts(r@) == places(space_dirs(s@) + pane_dirs(s@)),
{
    let mut dirs: Vec<String> = Vec::new();
    let mut i: usize = 0;
    while i < s.spaces.len()
        invariant
            i <= s.spaces@.len(),
            texts(dirs@) == space_dirs(s@).take(i as int),
        decreases s.spaces@.len() - i,
    {
        let d = s.spaces[i].cwd.clone();
        let ghost had = texts(dirs@);
        dirs.push(d);
        proof {
            assert(texts(dirs@) =~= had.push(s@.spaces[i as int].cwd));
            assert(texts(dirs@) =~= space_dirs(s@).take(i as int + 1));
        }
        i = i + 1;
    }
    proof {
        assert(texts(dirs@) =~= space_dirs(s@) + pane_dirs(s@).take(0));
    }
    let mut j: usize = 0;
    while j < s.panes.len()
        invariant
            j <= s.panes@.len(),
            texts(dirs@) == space_dirs(s@) + pane_dirs(s@).take(j as int),
        decreases s.panes@.len() - j,
    {
        let d = s.panes[j].cwd.clone();
        let ghost had = texts(dirs@);
        dirs.push(d);
        proof {
            assert(texts(dirs@) =~= had.push(s@.panes[j as int].cwd));
            assert(texts(dirs@) =~= space_dirs(s@) + pane_dirs(s@).take(j as int + 1));
        }
        j = j + 1;
    }
    proof {
        assert(pane_dirs(s@).take(j as int) =~= pane_dirs(s@));
    }
    sort_places(&dirs)
}

/// The vaults worth indexing: those that the spaces found, and the home vault where it is a
/// directory, in order, each place once; none where notes are switched off.
pub fn vault_roots(enabled: bool, located: &Vec<String>, home: &str, home_is_dir: bool) -> (r: Vec<
    String,
>)
    ensures
        texts(r@) == (if !enabled {
            Seq::<Seq<char>>::empty()
        } else if home_is_dir {
            places(texts(located@).push(home@))
        } else {
            places(texts(located@))
        }),
{
    if !enabled {
        let none: Vec<String> = Vec::new();
        proof {
            assert(texts(none@) =~= Seq::<Seq<char>>::empty());
        }
        return none;
    }
    let mut all = copy_texts(located);
    if home_is_dir {
        let ghost had = texts(all@);
        all.push(owned(home));
        proof {
            assert(texts(all@) =~= had.push(home@));
        }
    }
    sort_places(&all)
}

// -- writing notes -----------------------------------------------------------

/// Why a note was not written.
#[derive(Debug, Clone, Copy, PartialEq, Eq, Structural)]
pub enum NoteError {
    /// It is larger than a note may be.
    TooLarge { bytes: usize, limit: usize },
    /// It would be, with what is there already.
    WouldOverflow { limit: usize },
    /// Its path leads out of the vault.
    Path(PathError),
}

impl NoteError {
    /// The sentence a person is shown.
    pub open spec fn text(self) -> Seq<char> {
        match self {
            NoteError::TooLarge { bytes, limit } => "note is "@ + decimal(bytes as nat)
                + " bytes; the limit is "@ + decimal(limit as nat)
                + ". Something is writing in a loop."@,
            NoteError::WouldOverflow { limit } => "appending would take the note past "@ + decimal(
                limit as nat,
            ) + " bytes"@,
            NoteError::Path(e) => e.text(),
        }
    }

    /// The sentence a person is shown.
    pub fn message(&self) -> (r: String)
        ensures
            r@ == self.text(),
    {
        match self {
            NoteError::TooLarge { bytes, limit } => {
                let mut m = owned("note is ");
                m.append(number(*bytes as u64).as_str());
                m.append(" bytes; the limit is ");
                m.append(number(*limit as u64).as_str());
                m.append(". Something is writing in a loop.");
                m
            },
            NoteError::WouldOverflow { limit } => {
                let mut m = owned("appending would take the note past ");
                m.append(number(*limit as u64).as_str());
                m.append(" bytes");
                m
            },
            NoteError::Path(e) => e.message(),
        }
    }
}

/// Where a note goes under its vault. One that an agent wrote goes to a folder of its own
/// unless it named one.
pub open spec fn note_place(rel: Seq<char>, by_agent: bool, agent_dir: Seq<char>) -> Seq<char> {
    if by_agent && !occurs(rel, "/"@) {
        agent_dir + "/"@ + rel
    } else {
        rel
    }
}

/// Where a note is to be written.
#[derive(Debug)]
pub struct NotePlan {
    /// There is no vault yet: the home one is made first.
    pub makes_vault: bool,
    pub root: String,
    /// The file, or why there is none to write.
    pub path: Result<String, PathError>,
}

/// Plan the writing of a note: `found` is where the space's notes live, if anywhere, and `home`
/// where a vault is made otherwise. Asking for a note is asking for a vault to hold it.
pub fn vault_put(
    found: Option<&str>,
    home: &str,
    rel: &str,
    body: &str,
    by_agent: bool,
    agent_dir: &str,
    limit: usize,
) -> (r: Result<NotePlan, NoteError>)
    ensures
        match r {
            Err(e) => byte_len(body@) > limit && e == (NoteError::TooLarge {
                bytes: byte_len(body@) as usize,
                limit,
            }),
            Ok(p) => {
                &&& byte_len(body@) <= limit
                &&& p.makes_vault == (found is None)
                &&& p.root@ == (match found {
                    Some(f) => f@,
                    None => home@,
                })
                &&& match p.path {
                    Ok(path) => joined_safely(p.root@, note_place(rel@, by_agent, agent_dir@))
                        == Ok::<Seq<char>, PathError>(path@),
                    Err(e) => joined_safely(p.root@, note_place(rel@, by_agent, agent_dir@)) == Err::<
                        Seq<char>,
                        PathError,
                    >(e),
                }
            },
        },
{
    let bytes: usize = bytes_in(body);
    if bytes > limit {
        return Err(NoteError::TooLarge { bytes, limit });
    }
    let root = match found {
        Some(f) => owned(f),
        None => owned(home),
    };
    let rel = if by_agent && !contains(rel, "/") {
        let mut d = owned(agent_dir);
        d.append("/");
        d.append(rel);
        d
    } else {
        owned(rel)
    };
    let path = safe_join(root.as_str(), rel.as_str());
    Ok(NotePlan { makes_vault: found.is_none(), root, path })
}

/// What a note holds once something is added to it: a blank line between, so that entries read
/// as separate.
pub open spec fn appended(existing: Seq<char>, body: Seq<char>) -> Seq<char> {
    trimmed_end(existing) + "\n\n"@ + trimmed_start(body)
}

/// What a note is to hold: what was there with more behind it, or the text as it came, signed
/// where an agent wrote it.
pub fn note_text(existing: &str, body: &str, append: bool, signed: Option<&str>, limit: usize) -> (r:
    Result<String, NoteError>)
    ensures
        append && existing@.len() > 0 ==> (match r {
            Ok(t) => t@ == appended(existing@, body@) && byte_len(t@) <= limit,
            Err(e) => byte_len(appended(existing@, body@)) > limit
                && e == (NoteError::WouldOverflow { limit }),
        }),
        !(append && existing@.len() > 0) ==> (match r {
            Ok(t) => t@ == (match signed {
                Some(x) => x@,
                None => body@,
            }),
            Err(_) => false,
        }),
{
    if append && !existing.is_empty() {
        let mut joined = trim_end(existing);
        joined.append("\n\n");
        joined.append(trim_start(body).as_str());
        if bytes_in(joined.as_str()) > limit {
            return Err(NoteError::WouldOverflow { limit });
        }
        return Ok(joined);
    }
    match signed {
        Some(x) => Ok(owned(x)),
        None => Ok(owned(body)),
    }
}

/// Why a picture was not put in a vault.
#[derive(Debug, Clone, Copy, PartialEq, Eq, Structural)]
pub enum AttachError {
    Nothing,
    TooLarge(usize),
    /// The name names no file.
    NotAName,
}

impl AttachError {
    /// The sentence a person is shown.
    pub open spec fn text(self) -> Seq<char> {
        match self {
            AttachError::Nothing => "nothing to attach"@,
            AttachError::TooLarge(n) => decimal(n as nat) + " bytes; the limit is "@ + decimal(
                MAX_ATTACHMENT as nat,
            ),
            AttachError::NotAName => "not a filename"@,
        }
    }

    /// The sentence a person is shown.
    pub fn message(&self) -> (r: String)
        ensures
            r@ == self.text(),
    {
        match self {
            AttachError::Nothing => owned("nothing to attach"),
            AttachError::TooLarge(n) => {
                let mut m = number(*n as u64);
                m.append(" bytes; the limit is ");
                m.append(number(MAX_ATTACHMENT as u64).as_str());
                m
            },
            AttachError::NotAName => owned("not a filename"),
        }
    }
}

/// Where a picture is to be put.
#[derive(Debug)]
pub struct AttachPlan {
    /// There is no vault yet: the home one is made first.
    pub makes_vault: bool,
    /// The folder, made if it is not there.
    pub dir: String,
    /// The file, or why there is none to write.
    pub path: Result<String, PathError>,
}

/// Plan the attaching of a picture of so many bytes. The name is a filename, never a path: of a
/// path only the last part counts.
pub fn vault_attach(
    found: Option<&str>,
    home: &str,
    folder: &str,
    name: &str,
    bytes: usize,
) -> (r: Result<AttachPlan, AttachError>)
    ensures
        match r {
            Err(AttachError::Nothing) => bytes == 0,
            Err(AttachError::TooLarge(n)) => bytes > MAX_ATTACHMENT && n == bytes,
            Err(AttachError::NotAName) => 0 < bytes <= MAX_ATTACHMENT && file_name(name@) is None,
            Ok(p) => {
                &&& 0 < bytes <= MAX_ATTACHMENT
                &&& file_name(name@) is Some
                &&& p.makes_vault == (found is None)
                &&& p.dir@ == join_path(
                    match found {
                        Some(f) => f@,
                        None => home@,
                    },
                    folder@,
                )
                &&& match p.path {
                    Ok(path) => joined_safely(p.dir@, file_name(name@)->0) == Ok::<
                        Seq<char>,
                        PathError,
                    >(path@),
                    Err(e) => joined_safely(p.dir@, file_name(name@)->0) == Err::<
                        Seq<char>,
                        PathError,
                    >(e),
                }
            },
        },
{
    if bytes == 0 {
        return Err(AttachError::Nothing);
    }
    if bytes > MAX_ATTACHMENT {
        return Err(AttachError::TooLarge(bytes));
    }
    let file = match name_in(name) {
        Some(f) => f,
        None => {
            return Err(AttachError::NotAName);
        },
    };
    let root = match found {
        Some(f) => f,
        None => home,
    };
    let dir = join_paths(root, folder);
    let path = safe_join(dir.as_str(), file.as_str());
    Ok(AttachPlan { makes_vault: found.is_none(), dir, path })
}

// -- project files -----------------------------------------------------------

/// Why a project file was not reached.
#[derive(Debug, Clone, Copy, PartialEq, Eq, Structural)]
pub enum FileError {
    NoSpace,
    Path(PathError),
}

impl FileError {
    /// The sentence a person is shown.
    pub open spec fn text(self) -> Seq<char> {
        match self {
            FileError::NoSpace => "no such space"@,
            FileError::Path(e) => e.text(),
        }
    }

    /// The sentence a person is shown.
    pub fn message(&self) -> (r: String)
        ensures
            r@ == self.text(),
    {
        match self {
            FileError::NoSpace => owned("no such space"),
            FileError::Path(e) => e.message(),
        }
    }
}

/// Where a project's file is. Jailed to the project, as notes are to the vault.
pub open spec fn file_at(s: SessionView, space: u64, rel: Seq<char>) -> Result<
    Seq<char>,
    FileError,
> {
    if !s.has_space(space) {
        Err(FileError::NoSpace)
    } else {
        match joined_safely(s.spaces[s.space_at(space)].cwd, rel) {
            Ok(p) => Ok(p),
            Err(e) => Err(FileError::Path(e)),
        }
    }
}

/// Where a project's file is, for reading and for writing.
pub fn file_path(s: &Session, space: u64, rel: &str) -> (r: Result<String, FileError>)
    ensures
        match r {
            Ok(p) => file_at(s@, space, rel@) == Ok::<Seq<char>, FileError>(p@),
            Err(e) => file_at(s@, space, rel@) == Err::<Seq<char>, FileError>(e),
        },
{
    match s.space(space) {
        None => Err(FileError::NoSpace),
        Some(sp) => match safe_join(sp.cwd.as_str(), rel) {
            Ok(p) => Ok(p),
            Err(e) => Err(FileError::Path(e)),
        },
    }
}

/// Where a document is: in the notes, or in its project.
pub open spec fn document(
    s: SessionView,
    space: u64,
    rel: Seq<char>,
    vault: bool,
    vault_root: Option<Seq<char>>,
) -> Option<Seq<char>> {
    let root = if vault {
        vault_root
    } else if s.has_space(space) {
        Some(s.spaces[s.space_at(space)].cwd)
    } else {
        None
    };
    match root {
        None => None,
        Some(root) => match joined_safely(root, rel) {
            Ok(p) => Some(p),
            Err(_) => None,
        },
    }
}

/// Where a document that an editor has open is: a note is relative to the vault, and a file to
/// the project.
pub fn doc_path(s: &Session, space: u64, rel: &str, vault: bool, vault_root: Option<&str>) -> (r:
    Option<String>)
    ensures
        opt_text(r) == document(s@, space, rel@, vault, opt_str(vault_root)),
{
    let root = if vault {
        match vault_root {
            Some(v) => v,
            None => {
                return None;
            },
        }
    } else {
        match s.space(space) {
            Some(sp) => sp.cwd.as_str(),
            None => {
                return None;
            },
        }
    };
    match safe_join(root, rel) {
        Ok(p) => Some(p),
        Err(_) => None,
    }
}

/// The files that opening a document pane tries, in order: in the project, and only where that
/// leads nowhere, in the vault.
pub fn pane_doc(s: &Session, space: u64, rel: &str, vault_root: Option<&str>) -> (r: Option<String>)
    ensures
        opt_text(r) == (match file_at(s@, space, rel@) {
            Ok(p) => Some(p),
            Err(_) => match vault_root {
                None => None,
                Some(v) => match joined_safely(v@, rel@) {
                    Ok(p) => Some(p),
                    Err(_) => None,
                },
            },
        }),
{
    match file_path(s, space, rel) {
        Ok(p) => Some(p),
        Err(_) => match vault_root {
            None => None,
            Some(v) => match safe_join(v, rel) {
                Ok(p) => Some(p),
                Err(_) => None,
            },
        },
    }
}

// -- answering ---------------------------------------------------------------

/// What a client asks of a vault.
#[derive(Debug, Clone, PartialEq, Eq)]
pub enum VaultQuery {
    List,
    Search(String),
    Note(String),
    Graph,
}

/// A note, as a list shows it.
#[derive(Debug, Clone, PartialEq, Eq)]
pub struct NoteLine {
    pub path: String,
    pub title: String,
    pub tags: Vec<String>,
    pub mtime: u64,
    pub backlinks: usize,
}

/// The same, as text and numbers.
pub struct NoteLineView {
    pub path: Seq<char>,
    pub title: Seq<char>,
    pub tags: Seq<Seq<char>>,
    pub mtime: u64,
    pub backlinks: nat,
}

impl View for NoteLine {
    type V = NoteLineView;

    open spec fn view(&self) -> NoteLineView {
        NoteLineView {
            path: self.path@,
            title: self.title@,
            tags: texts(self.tags@),
            mtime: self.mtime,
            backlinks: self.backlinks as nat,
        }
    }
}

/// Lines, as text and numbers.
pub open spec fn line_views(v: Seq<NoteLine>) -> Seq<NoteLineView> {
    Seq::new(v.len(), |i: int| v[i]@)
}

/// How a list shows a note.
pub open spec fn line_of(ns: Seq<NoteView>, i: int) -> NoteLineView {
    NoteLineView {
        path: ns[i].path,
        title: ns[i].title,
        tags: ns[i].tags,
        mtime: ns[i].mtime,
        backlinks: linkers(ns, i, ns.len() as int).len(),
    }
}

/// How a list shows notes.
pub open spec fn lines_for(ns: Seq<NoteView>, ids: Seq<usize>) -> Seq<NoteLineView> {
    Seq::new(ids.len(), |i: int| line_of(ns, ids[i] as int))
}

/// The names that a note answers to: its file's, its title, and its aliases.
pub open spec fn names_of(n: NoteView) -> Seq<Seq<char>> {
    seq![n.stem_spec(), n.title] + n.aliases
}

/// The names that a note answers to, which is how a task would name it.
pub fn note_names(n: &Note) -> (r: Vec<String>)
    ensures
        texts(r@) == names_of(n@),
{
    let mut out: Vec<String> = Vec::new();
    out.push(n.stem());
    out.push(n.title.clone());
    proof {
        assert(texts(out@) =~= seq![n@.stem_spec(), n@.title] + n@.aliases.take(0));
    }
    let mut i: usize = 0;
    while i < n.aliases.len()
        invariant
            i <= n.aliases@.len(),
            texts(out@) == seq![n@.stem_spec(), n@.title] + n@.aliases.take(i as int),
        decreases n.aliases@.len() - i,
    {
        let a = n.aliases[i].clone();
        let ghost had = texts(out@);
        out.push(a);
        proof {
            assert(texts(out@) =~= had.push(n@.aliases[i as int]));
            assert(texts(out@) =~= seq![n@.stem_spec(), n@.title] + n@.aliases.take(i as int + 1));
        }
        i = i + 1;
    }
    proof {
        assert(n@.aliases.take(i as int) =~= n@.aliases);
    }
    out
}

/// What a client that asked is told. The text of a note is read from disk by whoever sends the
/// answer: the index is a map of the vault, not a copy of it.
pub struct VaultReply {
    pub root: String,
    pub notes: Vec<NoteLine>,
    pub backlinks: Vec<NoteLine>,
    /// The file whose text goes with the answer.
    pub body_at: Option<String>,
    /// The names under which tasks may mention the note.
    pub names: Vec<String>,
    pub graph: Option<VaultGraph>,
}

/// Whether an answer is right for a question.
pub open spec fn answers(idx: Index, kind: VaultQuery, r: VaultReply) -> bool {
    let ns = idx.view_notes();
    &&& r.root@ == idx.root@
    &&& match kind {
        VaultQuery::List => {
            &&& exists|ids: Seq<usize>| #[trigger]
                hits(ns, lowercase(trimmed(""@)), ids) && line_views(r.notes@) == lines_for(ns, ids)
            &&& r.backlinks@.len() == 0 && r.body_at is None && r.graph is None && r.names@.len()
                == 0
        },
        VaultQuery::Search(q) => {
            &&& exists|ids: Seq<usize>| #[trigger]
                hits(ns, lowercase(trimmed(q@)), ids) && line_views(r.notes@) == lines_for(ns, ids)
            &&& r.backlinks@.len() == 0 && r.body_at is None && r.graph is None && r.names@.len()
                == 0
        },
        VaultQuery::Note(path) => {
            let at = first_where(ns, note_at(path@));
            &&& at < ns.len()
            &&& line_views(r.notes@) == seq![line_of(ns, at)]
            &&& line_views(r.backlinks@) == lines_for(ns, linkers(ns, at, ns.len() as int))
            &&& opt_text(r.body_at) == Some(join_path(idx.root@, path@))
            &&& texts(r.names@) == names_of(ns[at])
            &&& r.graph is None
        },
        VaultQuery::Graph => {
            &&& r.notes@.len() == 0 && r.backlinks@.len() == 0 && r.body_at is None
                && r.names@.len() == 0
            &&& match r.graph {
                Some(g) => node_views(g.nodes@) == nodes_of(ns, refs(ns, ns.len() as int))
                    && edges_of(refs(ns, ns.len() as int), g.edges@),
                None => false,
            }
        },
    }
}

impl Index {
    /// How a list shows one of the notes.
    fn line(&self, id: NoteId) -> (r: NoteLine)
        requires
            self.wf(),
            id < self.notes@.len(),
        ensures
            r@ == line_of(self.view_notes(), id as int),
    {
        let n = &self.notes[id];
        let back = self.backlinks(id);
        NoteLine {
            path: n.path.clone(),
            title: n.title.clone(),
            tags: copy_texts(&n.tags),
            mtime: n.mtime,
            backlinks: back.len(),
        }
    }

    /// How a list shows several of the notes.
    fn lines(&self, ids: &[NoteId]) -> (r: Vec<NoteLine>)
        requires
            self.wf(),
            forall|i: int| 0 <= i < ids@.len() ==> #[trigger] ids@[i] < self.notes@.len(),
        ensures
            line_views(r@) == lines_for(self.view_notes(), ids@),
    {
        let mut out: Vec<NoteLine> = Vec::new();
        let mut i: usize = 0;
        while i < ids.len()
            invariant
                i <= ids@.len(),
                self.wf(),
                forall|j: int| 0 <= j < ids@.len() ==> #[trigger] ids@[j] < self.notes@.len(),
                out@.len() == i,
                forall|j: int|
                    0 <= j < i ==> (#[trigger] out@[j])@ == line_of(
                        self.view_notes(),
                        ids@[j] as int,
                    ),
            decreases ids@.len() - i,
        {
            let l = self.line(ids[i]);
            out.push(l);
            i = i + 1;
        }
        proof {
            assert(line_views(out@) =~= lines_for(self.view_notes(), ids@));
        }
        out
    }

    /// Answer a question; nothing where it is about a note that is not there.
    pub fn answer(&self, kind: &VaultQuery) -> (r: Option<VaultReply>)
        requires
            self.wf(),
        ensures
            match r {
                Some(reply) => answers(*self, *kind, reply),
                None => *kind matches VaultQuery::Note(path) && first_where(
                    self.view_notes(),
                    note_at(path@),
                ) >= self.notes@.len(),
            },
    {
        let mut reply = VaultReply {
            root: self.root.clone(),
            notes: Vec::new(),
            backlinks: Vec::new(),
            body_at: None,
            names: Vec::new(),
            graph: None,
        };
        match kind {
            VaultQuery::List => {
                let ids = self.search("");
                proof {
                    assert(hits(self.view_notes(), lowercase(trimmed(""@)), ids@));
                    assert forall|i: int| 0 <= i < ids@.len() implies #[trigger] ids@[i]
                        < self.notes@.len() by {
                        assert(ids@.contains(ids@[i]));
                    }
                }
                reply.notes = self.lines(ids.as_slice());
            },
            VaultQuery::Search(q) => {
                let ids = self.search(q.as_str());
                proof {
                    assert(hits(self.view_notes(), lowercase(trimmed(q@)), ids@));
                    assert forall|i: int| 0 <= i < ids@.len() implies #[trigger] ids@[i]
                        < self.notes@.len() by {
                        assert(ids@.contains(ids@[i]));
                    }
                }
                reply.notes = self.lines(ids.as_slice());
            },
            VaultQuery::Note(path) => {
                let id = match self.at(path.as_str()) {
                    Some(id) => id,
                    None => {
                        return None;
                    },
                };
                let one = self.line(id);
                reply.notes.push(one);
                let n: usize = self.notes.len();
                proof {
                    lemma_linkers_in_range(
                        self.view_notes(),
                        id as int,
                        n as int,
                    );
                    assert(line_views(reply.notes@) =~= seq![line_of(self.view_notes(), id as int)]);
                }
                reply.backlinks = self.lines(self.backlinks(id));
                reply.body_at = Some(join_paths(self.root.as_str(), path.as_str()));
                reply.names = note_names(&self.notes[id]);
            },
            VaultQuery::Graph => {
                reply.graph = Some(self.graph());
            },
        }
        Some(reply)
    }

    /// The note at a path.
    fn at(&self, path: &str) -> (r: Option<NoteId>)
        ensures
            match r {
                Some(i) => i < self.notes@.len() && i == first_where(
                    self.view_notes(),
                    note_at(path@),
                ),
                None => first_where(self.view_notes(), note_at(path@)) >= self.notes@.len(),
            },
    {
        let ghost ns = self.view_notes();
        let mut i: usize = 0;
        while i < self.notes.len()
            invariant
                i <= self.notes@.len(),
                ns == self.view_notes(),
                forall|j: int| 0 <= j < i ==> !note_at(path@)(#[trigger] ns[j]),
            decreases self.notes@.len() - i,
        {
            if same(self.notes[i].path.as_str(), path) {
                proof {
                    assert(note_at(path@)(ns[i as int]));
                    lemma_first_where_is(ns, note_at(path@), i as int);
                }
                return Some(i);
            }
            proof {
                assert(!note_at(path@)(ns[i as int]));
            }
            i = i + 1;
        }
        proof {
            lemma_first_where_is(ns, note_at(path@), ns.len() as int);
        }
        None
    }
}

/// Notes that link to one are notes.
proof fn lemma_linkers_in_range(ns: Seq<NoteView>, to: int, n: int)
    requires
        0 <= n <= ns.len() <= usize::MAX,
    ensures
        forall|i: int|
            0 <= i < linkers(ns, to, n).len() ==> (#[trigger] linkers(ns, to, n)[i]) < n,
    decreases n,
{
    if n > 0 {
        lemma_linkers_in_range(ns, to, n - 1);
        let less = linkers(ns, to, n - 1);
        let all = linkers(ns, to, n);
        assert forall|i: int| 0 <= i < all.len() implies (#[trigger] all[i]) < n by {
            if i < less.len() {
                assert(all[i] == less[i]);
            }
        }
    }
}

// -- laws --------------------------------------------------------------------

/// A note is never written outside its vault, whoever wrote it: its place begins with the
/// vault's, and a path that climbs is refused.
pub proof fn law_a_note_stays_in_its_vault(
    root: Seq<char>,
    rel: Seq<char>,
    by_agent: bool,
    agent_dir: Seq<char>,
)
    ensures
        match joined_safely(root, note_place(rel, by_agent, agent_dir)) {
            Ok(p) => begins(p, root),
            Err(_) => true,
        },
{
    let place = note_place(rel, by_agent, agent_dir);
    if joined_safely(root, place) is Ok {
        law_a_joined_path_stays_inside(root, place);
    }
}

/// A note by an agent that named no folder is kept apart, and one by a person goes where it
/// says.
pub proof fn law_an_agents_note_is_kept_apart(rel: Seq<char>, agent_dir: Seq<char>)
    ensures
        !occurs(rel, "/"@) ==> note_place(rel, true, agent_dir) == agent_dir + "/"@ + rel,
        occurs(rel, "/"@) ==> note_place(rel, true, agent_dir) == rel,
        note_place(rel, false, agent_dir) == rel,
{
}

} // verus!
