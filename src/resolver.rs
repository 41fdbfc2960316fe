use vstd::prelude::*;
use crate::codec::CodecError;
use crate::index::{lookup, DefinitionIndex, Reference};
use crate::text::{
    join_lines, position_to_offset, span_to_range, Position, Range, SourceText,
};

verus! {

/// Why a definition could not be resolved.
#[derive(Debug, Clone, Copy, PartialEq, Eq, Structural)]
pub enum ResolveError {
    /// The document URI does not name a local file.
    InvalidUri,
    /// No package holds the file.
    PackageNotFound,
    /// The compiler reported a fatal error.
    CompileFailed,
    /// The file is not among the compiled files.
    FileNotIndexed,
    /// The query position is not a position of the file.
    InvalidPosition(CodecError),
    /// The definition lies in a file whose text is not among the compiled files.
    TargetFileUnresolvable,
    /// The definition's span is not a span of its file.
    InvalidTargetSpan(CodecError),
}

/// Where a definition was found: a file id and a range in it.
#[derive(Debug, Clone, Copy, PartialEq, Eq, Structural)]
pub struct DefinitionTarget {
    pub file: usize,
    pub range: Range,
}

/// Index of the first of `paths` equal to `path`, if any.
pub open spec fn first_index(paths: Seq<Seq<char>>, path: Seq<char>) -> Option<int> {
    if exists|i: int|
        0 <= i < paths.len() && #[trigger] paths[i] == path && forall|j: int|
            0 <= j < i ==> #[trigger] paths[j] != path {
        Some(
            choose|i: int|
                0 <= i < paths.len() && #[trigger] paths[i] == path && forall|j: int|
                    0 <= j < i ==> #[trigger] paths[j] != path,
        )
    } else {
        None
    }
}

/// The paths of files given as (path, lines).
pub open spec fn paths_of(files: Seq<(Seq<char>, Seq<Seq<char>>)>) -> Seq<Seq<char>> {
    files.map_values(|f: (Seq<char>, Seq<Seq<char>>)| f.0)
}

/// Outcome of a definition query at `position` of the file at `path`, over
/// compiled files given as (path, lines) and the references of their
/// definition index.
pub open spec fn resolution(
    files: Seq<(Seq<char>, Seq<Seq<char>>)>,
    refs: Seq<Reference>,
    path: Seq<char>,
    position: Position,
) -> Result<Option<DefinitionTarget>, ResolveError> {
    match first_index(paths_of(files), path) {
        None => Err(ResolveError::FileNotIndexed),
        Some(f) => match position_to_offset(files[f].1, position) {
            Err(e) => Err(ResolveError::InvalidPosition(e)),
            Ok(o) => match lookup(refs, f as usize, o) {
                None => Ok(None),
                Some(t) => if t.file >= files.len() {
                    Err(ResolveError::TargetFileUnresolvable)
                } else {
                    match span_to_range(files[t.file as int].1, t.span) {
                        Ok(range) => Ok(Some(DefinitionTarget { file: t.file, range })),
                        Err(e) => Err(ResolveError::InvalidTargetSpan(e)),
                    }
                },
            },
        },
    }
}

struct SourceFile {
    path: String,
    text: SourceText,
}

/// The files of a compiled package, each with an id: its place in the set.
pub struct FileSet {
    files: Vec<SourceFile>,
}

impl FileSet {
    /// The files, as (path, lines).
    pub closed spec fn view_files(&self) -> Seq<(Seq<char>, Seq<Seq<char>>)> {
        self.files@.map_values(|f: SourceFile| (f.path@, f.text.view_lines()))
    }

    pub closed spec fn wf(&self) -> bool {
        forall|i: int| 0 <= i < self.files@.len() ==> (#[trigger] self.files@[i]).text.wf()
    }

    /// The paths of the files, in id order.
    pub open spec fn view_paths(&self) -> Seq<Seq<char>> {
        paths_of(self.view_files())
    }

    /// An empty set.
    pub fn new() -> (r: FileSet)
        ensures
            r.wf(),
            r.view_files() == Seq::<(Seq<char>, Seq<Seq<char>>)>::empty(),
    {
        FileSet { files: Vec::new() }
    }

    /// Id of the file at `path`.
    pub fn file_id(&self, path: &String) -> (r: Option<usize>)
        ensures
            r is Some <==> first_index(self.view_paths(), path@) is Some,
            r is Some ==> first_index(self.view_paths(), path@) == Some(r->0 as int),
    {
        let ghost paths = self.view_paths();
        let mut i: usize = 0;
        while i < self.files.len()
            invariant
                paths == self.view_paths(),
                paths.len() == self.files@.len(),
                i <= paths.len(),
                forall|j: int| 0 <= j < i ==> #[trigger] paths[j] != path@,
            decreases paths.len() - i,
        {
            if self.files[i].path == *path {
                proof {
                    assert(paths[i as int] == path@);
                    let k = choose|k: int|
                        0 <= k < paths.len() && #[trigger] paths[k] == path@ && forall|j: int|
                            0 <= j < k ==> #[trigger] paths[j] != path@;
                    if k < i {
                    } else if k > i {
                        assert(paths[i as int] != path@);
                    }
                }
                return Some(i);
            }
            i = i + 1;
        }
        None
    }

    /// Adds the file at `path` with the given text, and returns its id; a
    /// path already in the set keeps its id and its text.
    pub fn add_file(&mut self, path: String, text: &str) -> (id: usize)
        requires
            old(self).wf(),
        ensures
            final(self).wf(),
            match first_index(old(self).view_paths(), path@) {
                Some(i) => id == i && final(self).view_files() == old(self).view_files(),
                None => {
                    &&& id == old(self).view_files().len()
                    &&& final(self).view_files().drop_last() == old(self).view_files()
                    &&& final(self).view_files().last().0 == path@
                    &&& join_lines(final(self).view_files().last().1) == text@
                },
            },
    {
        match self.file_id(&path) {
            Some(i) => i,
            None => {
                let id: usize = self.files.len();
                let t = SourceText::from_text(text);
                self.files.push(SourceFile { path, text: t });
                proof {
                    assert(self.view_files().drop_last() =~= old(self).view_files());
                    assert forall|i: int| 0 <= i < self.files@.len() implies (
                    #[trigger] self.files@[i]).text.wf() by {
                        if i < id {
                            assert(self.files@[i] == old(self).files@[i]);
                        }
                    }
                }
                id
            },
        }
    }

    /// Path of the file with id `id`.
    pub fn path(&self, id: usize) -> (r: Option<&String>)
        ensures
            id < self.view_files().len() ==> r is Some && r->0@ == self.view_files()[id as int].0,
            id >= self.view_files().len() ==> r is None,
    {
        if id < self.files.len() {
            Some(&self.files[id].path)
        } else {
            None
        }
    }

    /// Text of the file with id `id`.
    pub fn text(&self, id: usize) -> (r: Option<&SourceText>)
        requires
            self.wf(),
        ensures
            id < self.view_files().len() ==> r is Some && r->0.wf() && r->0.view_lines()
                == self.view_files()[id as int].1,
            id >= self.view_files().len() ==> r is None,
    {
        if id < self.files.len() {
            Some(&self.files[id].text)
        } else {
            None
        }
    }
}

/// The local path named by a document URI, given the URI's scheme and the
/// path that was read from it (`None` where it has none): only a `file` URI
/// with a path names a local file.
pub fn file_path_of_uri(scheme: &str, path: Option<String>) -> (r: Result<String, ResolveError>)
    ensures
        scheme@ == "file"@ && path is Some ==> r == Ok::<String, ResolveError>(path->0),
        !(scheme@ == "file"@ && path is Some) ==> r == Err::<String, ResolveError>(
            ResolveError::InvalidUri,
        ),
{
    let file = "file".to_owned();
    let given = scheme.to_owned();
    match path {
        Some(p) => {
            if given == file {
                Ok(p)
            } else {
                Err(ResolveError::InvalidUri)
            }
        },
        None => Err(ResolveError::InvalidUri),
    }
}

/// Resolves the definition of the name at `position` in the file at `path`:
/// the position is converted to a byte offset, the index is probed at that
/// byte, and the definition's span is converted back to an editor range.
/// `Ok(None)` means that no definition is known there (whitespace, a
/// keyword), which is no error.
pub fn resolve_definition(
    files: &FileSet,
    index: &DefinitionIndex,
    path: &String,
    position: &Position,
) -> (r: Result<Option<DefinitionTarget>, ResolveError>)
    requires
        files.wf(),
    ensures
        r == resolution(files.view_files(), index@, path@, *position),
{
    let file = match files.file_id(path) {
        Some(f) => f,
        None => {
            return Err(ResolveError::FileNotIndexed);
        },
    };
    let text = match files.text(file) {
        Some(t) => t,
        None => {
            return Err(ResolveError::FileNotIndexed);
        },
    };
    let offset = match text.position_to_byte_index(position) {
        Ok(o) => o,
        Err(e) => {
            return Err(ResolveError::InvalidPosition(e));
        },
    };
    let found = match index.definition_at(file, offset) {
        Some(t) => t,
        None => {
            return Ok(None);
        },
    };
    let target_text = match files.text(found.file) {
        Some(t) => t,
        None => {
            return Err(ResolveError::TargetFileUnresolvable);
        },
    };
    match target_text.byte_span_to_range(found.span) {
        Ok(range) => Ok(Some(DefinitionTarget { file: found.file, range })),
        Err(e) => Err(ResolveError::InvalidTargetSpan(e)),
    }
}

} // verus!
