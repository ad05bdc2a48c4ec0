//! File-system related resource types.
use vstd::prelude::*;
use vstd::string::{StrSliceExecFns, StringSliceAdditionalSpecFns};

use crate::meta::{ensured, ensured_all, has_identity, Note};
use crate::resource::{identity, lemma_key_view, Key, KeyView, Resource, UnresolvedResource};
use crate::util::{
    debug_of_path,
    parent_of_path,
    path_debug,
    path_parent,
    sha1_hex,
    sha1_hex_of,
};

verus! {

/// What a file should be.
pub enum FileType {
    /// Nothing is at the path.
    Absent,
    /// A regular file, with the given contents or with any contents.
    File { contents: Option<Vec<u8>> },
    /// A directory.
    Dir,
    /// A symlink that points to the target.
    Symlink { target: String },
}

/// The mathematical value of a `FileType`.
pub enum FileState {
    Absent,
    File(Option<Seq<u8>>),
    Dir,
    Symlink(Seq<char>),
}

/// A file, which can be absent, a regular file, a directory, or a symlink.
pub struct File {
    path: String,
    file_type: FileType,
}

/// The mathematical value of a `File`.
pub struct FileView {
    pub path: Seq<char>,
    pub state: FileState,
}

impl View for FileType {
    type V = FileState;

    open spec fn view(&self) -> FileState {
        match self {
            FileType::Absent => FileState::Absent,
            FileType::File { contents } => FileState::File(
                match contents {
                    Some(c) => Some(c@),
                    None => None,
                },
            ),
            FileType::Dir => FileState::Dir,
            FileType::Symlink { target } => FileState::Symlink(target@),
        }
    }
}

impl View for File {
    type V = FileView;

    closed spec fn view(&self) -> FileView {
        FileView { path: self.path@, state: self.file_type@ }
    }
}

impl File {
    /// Starts reasoning about a file at a certain path. The resulting resource
    /// only ensures that the file exists and is a regular file.
    pub fn at(path: &str) -> (r: File)
        ensures
            r@ == (FileView { path: path@, state: FileState::File(None) }),
    {
        File { path: String::from_str(path), file_type: FileType::File { contents: None } }
    }

    /// The file should contain the given bytes.
    pub fn contains(self, contents: Vec<u8>) -> (r: File)
        ensures
            r@ == (FileView { path: self@.path, state: FileState::File(Some(contents@)) }),
    {
        File { path: self.path, file_type: FileType::File { contents: Some(contents) } }
    }

    /// The file should contain the given string, encoded as UTF-8.
    pub fn contains_str(self, contents: &str) -> (r: File)
        ensures
            r@ == (FileView {
                path: self@.path,
                state: FileState::File(Some(contents.spec_bytes())),
            }),
    {
        self.contains(contents.as_bytes_vec())
    }

    /// The file is a regular file, with any contents.
    pub fn is_file(self) -> (r: File)
        ensures
            r@ == (FileView { path: self@.path, state: FileState::File(None) }),
    {
        File { path: self.path, file_type: FileType::File { contents: None } }
    }

    /// The file is a directory.
    pub fn is_dir(self) -> (r: File)
        ensures
            r@ == (FileView { path: self@.path, state: FileState::Dir }),
    {
        File { path: self.path, file_type: FileType::Dir }
    }

    /// The file is a symlink that points to the given path.
    pub fn points_to(self, target: &str) -> (r: File)
        ensures
            r@ == (FileView { path: self@.path, state: FileState::Symlink(target@) }),
    {
        File { path: self.path, file_type: FileType::Symlink { target: String::from_str(target) } }
    }

    /// The file should be absent, and is deleted if it exists.
    pub fn is_absent(self) -> (r: File)
        ensures
            r@ == (FileView { path: self@.path, state: FileState::Absent }),
    {
        File { path: self.path, file_type: FileType::Absent }
    }
}

/// Whether two byte strings are equal.
fn bytes_equal(a: &Vec<u8>, b: &Vec<u8>) -> (r: bool)
    ensures
        r == (a@ == b@),
{
    if a.len() != b.len() {
        return false;
    }
    let mut i: usize = 0;
    while i < a.len()
        invariant
            a.len() == b.len(),
            0 <= i <= a.len(),
            forall|j: int| 0 <= j < i ==> a@[j] == b@[j],
        decreases a.len() - i,
    {
        if a[i] != b[i] {
            return false;
        }
        i = i + 1;
    }
    assert(a@ =~= b@);
    true
}

/// The word that names what a file should be.
pub open spec fn state_word(s: FileState) -> Seq<char> {
    match s {
        FileState::Absent => "absent"@,
        FileState::File(_) => "file"@,
        FileState::Dir => "directory"@,
        FileState::Symlink(_) => "symlink"@,
    }
}

/// How a file is shown: what it should be and its path, then the first eight
/// digits of the SHA-1 digest of its contents, or the target of a symlink.
pub open spec fn file_text(v: FileView) -> Seq<char> {
    state_word(v.state) + " "@ + path_debug(v.path) + match v.state {
        FileState::File(Some(c)) => " with sha1 "@ + sha1_hex(c).take(8),
        FileState::Symlink(t) => " with target "@ + path_debug(t),
        _ => Seq::empty(),
    }
}

/// The directory that a file at the path needs: the parent path, where there
/// is one and it is not empty.
pub open spec fn parent_dirs(path: Seq<char>) -> Seq<FileView> {
    match path_parent(path) {
        Some(p) => if p.len() > 0 {
            seq![FileView { path: p, state: FileState::Dir }]
        } else {
            Seq::empty()
        },
        None => Seq::empty(),
    }
}

impl Resource for File {
    open spec fn kind_of(v: FileView) -> Seq<char> {
        "file"@
    }

    open spec fn key_of(v: FileView) -> KeyView {
        KeyView::Path(v.path)
    }

    open spec fn describe_of(v: FileView) -> Seq<char> {
        file_text(v)
    }

    fn kind(&self) -> (r: String) {
        String::from_str("file")
    }

    fn key(&self) -> (r: Key) {
        let r = Key::Path(self.path.clone());
        proof {
            lemma_key_view(r);
        }
        r
    }

    fn describe(&self) -> (r: String) {
        let mut out = String::from_str(match &self.file_type {
            FileType::Absent => "absent",
            FileType::File { .. } => "file",
            FileType::Dir => "directory",
            FileType::Symlink { .. } => "symlink",
        });
        out.append(" ");
        let shown = debug_of_path(self.path.as_str());
        out.append(shown.as_str());
        match &self.file_type {
            FileType::File { contents: Some(c) } => {
                let digest = sha1_hex_of(c.as_slice());
                out.append(" with sha1 ");
                out.append(digest.as_str().substring_char(0, 8));
            },
            FileType::Symlink { target } => {
                out.append(" with target ");
                let shown_target = debug_of_path(target.as_str());
                out.append(shown_target.as_str());
            },
            _ => {},
        }
        proof {
            assert(out@ =~= file_text(self@));
        }
        out
    }

    fn equals(&self, other: &File) -> (r: bool) {
        if self.path != other.path {
            return false;
        }
        match (&self.file_type, &other.file_type) {
            (FileType::Absent, FileType::Absent) => true,
            (FileType::File { contents: None }, FileType::File { contents: None }) => true,
            (FileType::File { contents: Some(a) }, FileType::File { contents: Some(b) }) => {
                bytes_equal(a, b)
            },
            (FileType::Dir, FileType::Dir) => true,
            (FileType::Symlink { target: a }, FileType::Symlink { target: b }) => *a == *b,
            _ => false,
        }
    }
}

impl UnresolvedResource for File {
    open spec fn depth_of(v: FileView) -> nat {
        v.path.len()
    }

    open spec fn prerequisites_of(v: FileView) -> Seq<FileView> {
        parent_dirs(v.path)
    }

    /// A file needs the directory that holds it.
    fn implicit_ensure(&self) -> (r: Vec<File>) {
        let mut r: Vec<File> = Vec::new();
        match parent_of_path(self.path.as_str()) {
            Some(p) => {
                if !p.as_str().is_empty() {
                    r.push(File { path: p, file_type: FileType::Dir });
                }
            },
            None => {},
        }
        r
    }
}

/// What the host found at a path.
pub enum Observation {
    /// Nothing is there.
    Missing,
    /// A regular file, with its contents where the host read them.
    File { contents: Option<Vec<u8>> },
    /// A directory.
    Dir,
    /// A symlink, with the path it points to and what it leads to.
    Symlink { target: String, leads_to: LinkEnd },
    /// Something else, such as a socket.
    Other,
}

/// What the host found by following a symlink.
pub enum LinkEnd {
    /// Nothing: the link dangles.
    Missing,
    /// A regular file, with its contents where the host read them.
    File { contents: Option<Vec<u8>> },
    /// A directory.
    Dir,
    /// Something else.
    Other,
}

/// A change that the host makes at the path of a file.
pub enum Action {
    /// Nothing to change.
    Nothing,
    /// Delete the directory.
    RemoveDir,
    /// Delete the file or symlink.
    RemoveFile,
    /// Create or truncate the file, and write these bytes to it; through a
    /// symlink that leads to a regular file, that file is written.
    Write(Vec<u8>),
    /// Delete the symlink, then create a regular file holding these bytes.
    ReplaceLinkWithFile(Vec<u8>),
    /// Create the directory and any missing parents.
    CreateDirAll,
    /// Delete the symlink, then create the directory and any missing parents.
    ReplaceLinkWithDir,
    /// Create a symlink that points to this path.
    Symlink(String),
    /// Delete the file or symlink there, then create a symlink that points
    /// to this path.
    ReplaceFileWithSymlink(String),
    /// Delete the (empty) directory there, then create a symlink that points
    /// to this path.
    ReplaceDirWithSymlink(String),
}

/// Whether a regular file is found at the path, directly or through a symlink.
pub open spec fn finds_file(obs: Observation) -> bool {
    obs is File || (obs is Symlink && obs->leads_to is File)
}

/// Whether a directory is found at the path, directly or through a symlink.
pub open spec fn finds_dir(obs: Observation) -> bool {
    obs is Dir || (obs is Symlink && obs->leads_to is Dir)
}

/// Whether a symlink that does not lead to a regular file is found at the
/// path.
pub open spec fn finds_link_off_file(obs: Observation) -> bool {
    obs is Symlink && !(obs->leads_to is File)
}

/// The contents read from the regular file found at the path, directly or
/// through a symlink.
pub open spec fn found_contents(obs: Observation) -> Option<Seq<u8>> {
    match obs {
        Observation::File { contents: Some(o) } => Some(o@),
        Observation::Symlink { leads_to: LinkEnd::File { contents: Some(o) }, .. } => Some(o@),
        _ => None,
    }
}

/// Whether what was found at the path is what the file declares. A regular
/// file or a directory may be reached through a symlink. Contents are
/// compared by their SHA-1 digests.
pub open spec fn up_to_date(v: FileView, obs: Observation) -> bool {
    match v.state {
        FileState::Absent => obs is Missing,
        FileState::File(None) => finds_file(obs),
        FileState::File(Some(c)) => match found_contents(obs) {
            Some(o) => sha1_hex(o) == sha1_hex(c),
            None => false,
        },
        FileState::Dir => finds_dir(obs),
        FileState::Symlink(t) => match obs {
            Observation::Symlink { target, .. } => target@ == t,
            _ => false,
        },
    }
}

/// The change for a regular file holding `c`: write it in place or through
/// a symlink to a regular file; replace a symlink that leads anywhere else;
/// leave alone what is neither a file, a directory nor a symlink (writing
/// into a directory fails, and is reported).
pub open spec fn file_action_fits(r: Action, obs: Observation, c: Seq<u8>) -> bool {
    if finds_link_off_file(obs) {
        r is ReplaceLinkWithFile && r->ReplaceLinkWithFile_0@ == c
    } else if obs is Other {
        r is Nothing
    } else {
        r is Write && r->Write_0@ == c
    }
}

impl File {
    /// The path of the file.
    pub fn path(&self) -> (r: &String)
        ensures
            r@ == self@.path,
    {
        &self.path
    }

    /// Whether checking the file needs the contents of what is at its path.
    pub fn needs_contents(&self) -> (r: bool)
        ensures
            r == (self@.state is File && self@.state->File_0 is Some),
    {
        match &self.file_type {
            FileType::File { contents: Some(_) } => true,
            _ => false,
        }
    }

    /// Whether the target system already matches the file, given what was
    /// found at its path. A missing path is not an error: the file is then
    /// up to date only if it should be absent.
    pub fn verify_observed(&self, obs: &Observation) -> (r: bool)
        ensures
            r == up_to_date(self@, *obs),
    {
        let found: Option<&Vec<u8>> = match obs {
            Observation::File { contents: Some(o) } => Some(o),
            Observation::Symlink { leads_to: LinkEnd::File { contents: Some(o) }, .. } => Some(o),
            _ => None,
        };
        let is_file = match obs {
            Observation::File { .. } => true,
            Observation::Symlink { leads_to: LinkEnd::File { .. }, .. } => true,
            _ => false,
        };
        let is_dir = match obs {
            Observation::Dir => true,
            Observation::Symlink { leads_to: LinkEnd::Dir, .. } => true,
            _ => false,
        };
        match &self.file_type {
            FileType::Absent => matches!(obs, Observation::Missing),
            FileType::File { contents: None } => is_file,
            FileType::File { contents: Some(c) } => match found {
                Some(o) => {
                    let found_digest = sha1_hex_of(o.as_slice());
                    let wanted = sha1_hex_of(c.as_slice());
                    found_digest == wanted
                },
                None => false,
            },
            FileType::Dir => is_dir,
            FileType::Symlink { target } => match obs {
                Observation::Symlink { target: at, .. } => *at == *target,
                _ => false,
            },
        }
    }

    /// The change that brings the path in line with the file, given what was
    /// found there. It is safe to make again: what is already right is left
    /// alone, but for contents, which are written each time; a symlink that
    /// points elsewhere, or another thing in its place, is replaced.
    pub fn plan(&self, obs: &Observation) -> (r: Action)
        ensures
            match self@.state {
                FileState::Absent => match *obs {
                    Observation::Dir => r is RemoveDir,
                    Observation::File { .. } => r is RemoveFile,
                    Observation::Symlink { .. } => r is RemoveFile,
                    _ => r is Nothing,
                },
                FileState::File(Some(c)) => file_action_fits(r, *obs, c),
                FileState::File(None) => if finds_file(*obs) {
                    r is Nothing
                } else {
                    file_action_fits(r, *obs, Seq::empty())
                },
                FileState::Dir => if finds_dir(*obs) {
                    r is Nothing
                } else if obs is Symlink {
                    r is ReplaceLinkWithDir
                } else {
                    r is CreateDirAll
                },
                FileState::Symlink(t) => if up_to_date(self@, *obs) {
                    r is Nothing
                } else {
                    match *obs {
                        Observation::Missing => r is Symlink && r->Symlink_0@ == t,
                        Observation::Dir => r is ReplaceDirWithSymlink && r->ReplaceDirWithSymlink_0@ == t,
                        _ => r is ReplaceFileWithSymlink && r->ReplaceFileWithSymlink_0@ == t,
                    }
                },
            },
    {
        let link_off_file = match obs {
            Observation::Symlink { leads_to: LinkEnd::File { .. }, .. } => false,
            Observation::Symlink { .. } => true,
            _ => false,
        };
        let other = matches!(obs, Observation::Other);
        match &self.file_type {
            FileType::Absent => match obs {
                Observation::Dir => Action::RemoveDir,
                Observation::File { .. } => Action::RemoveFile,
                Observation::Symlink { .. } => Action::RemoveFile,
                _ => Action::Nothing,
            },
            FileType::File { contents: Some(c) } => {
                if link_off_file {
                    Action::ReplaceLinkWithFile(c.clone())
                } else if other {
                    Action::Nothing
                } else {
                    Action::Write(c.clone())
                }
            },
            FileType::File { contents: None } => {
                if self.verify_observed(obs) {
                    Action::Nothing
                } else if link_off_file {
                    Action::ReplaceLinkWithFile(Vec::new())
                } else if other {
                    Action::Nothing
                } else {
                    Action::Write(Vec::new())
                }
            },
            FileType::Dir => {
                if self.verify_observed(obs) {
                    Action::Nothing
                } else if matches!(obs, Observation::Symlink { .. }) {
                    Action::ReplaceLinkWithDir
                } else {
                    Action::CreateDirAll
                }
            },
            FileType::Symlink { target } => {
                if self.verify_observed(obs) {
                    Action::Nothing
                } else {
                    match obs {
                        Observation::Missing => Action::Symlink(target.clone()),
                        Observation::Dir => Action::ReplaceDirWithSymlink(target.clone()),
                        _ => Action::ReplaceFileWithSymlink(target.clone()),
                    }
                }
            },
        }
    }
}

/// Round trip: a file declared with contents is not up to date while its path
/// is missing, and is up to date once a regular file with exactly those bytes
/// is found there; with other bytes it is up to date only if their digests
/// agree.
pub proof fn lemma_written_contents_verify(v: FileView, c: Seq<u8>, found: Vec<u8>)
    requires
        v.state == FileState::File(Some(c)),
    ensures
        !up_to_date(v, Observation::Missing),
        found@ == c ==> up_to_date(v, Observation::File { contents: Some(found) }),
        up_to_date(v, Observation::File { contents: Some(found) }) == (sha1_hex(found@) == sha1_hex(
            c,
        )),
{
}

/// Nested prerequisites: declaring a file two directories deep, where the
/// parent of its path is `b`, that of `b` is `a`, and `a` has no parent to
/// ensure, registers exactly three members: the directory `a`, the
/// directory `b`, then the file, with no note.
pub proof fn lemma_nested_directories(a: Seq<char>, b: Seq<char>, v: FileView)
    requires
        path_parent(v.path) == Some(b),
        path_parent(b) == Some(a),
        match path_parent(a) {
            Some(p) => p.len() == 0,
            None => true,
        },
        0 < a.len() < b.len() < v.path.len(),
    ensures
        ensured::<File>((Seq::empty(), Seq::empty()), v) == (
            seq![
                FileView { path: a, state: FileState::Dir },
                FileView { path: b, state: FileState::Dir },
                v,
            ],
            Seq::<Note>::empty(),
        ),
{
    let da = FileView { path: a, state: FileState::Dir };
    let db = FileView { path: b, state: FileState::Dir };
    let st0 = (Seq::<FileView>::empty(), Seq::<Note>::empty());
    assert(File::prerequisites_of(da) =~= Seq::<FileView>::empty());
    assert(File::prerequisites_of(db) == seq![da]);
    assert(File::prerequisites_of(v) == seq![db]);
    assert(ensured_all::<File>(st0, da, Seq::empty()) == st0);
    let s1 = ensured::<File>(st0, da);
    assert(!has_identity::<File>(st0.0, identity::<File>(da)));
    assert(s1 == (seq![da], Seq::<Note>::empty()));
    assert(seq![da].drop_last() =~= Seq::<FileView>::empty());
    assert(ensured_all::<File>(st0, db, Seq::empty()) == st0);
    assert(seq![da].last() == da);
    assert(File::depth_of(da) < File::depth_of(db));
    assert(ensured_all::<File>(st0, db, seq![da]) == s1);
    assert(KeyView::Path(a) != KeyView::Path(b));
    assert(!has_identity::<File>(s1.0, identity::<File>(db))) by {
        assert(s1.0.len() == 1);
        assert(identity::<File>(s1.0[0]) != identity::<File>(db));
    }
    let s2 = ensured::<File>(st0, db);
    assert(s2 == (seq![da, db], Seq::<Note>::empty())) by {
        assert(seq![da].push(db) =~= seq![da, db]);
    }
    assert(seq![db].drop_last() =~= Seq::<FileView>::empty());
    assert(ensured_all::<File>(st0, v, Seq::empty()) == st0);
    assert(seq![db].last() == db);
    assert(File::depth_of(db) < File::depth_of(v));
    assert(ensured_all::<File>(st0, v, seq![db]) == s2);
    assert(!has_identity::<File>(s2.0, identity::<File>(v))) by {
        assert(KeyView::Path(a) != KeyView::Path(v.path));
        assert(KeyView::Path(b) != KeyView::Path(v.path));
        assert(identity::<File>(s2.0[0]) != identity::<File>(v));
        assert(identity::<File>(s2.0[1]) != identity::<File>(v));
    }
    assert(seq![da, db].push(v) =~= seq![da, db, v]);
}

} // verus!
