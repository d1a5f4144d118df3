//! Dependencies between files and entities.

use vstd::prelude::*;
use vstd::string::StringSliceAdditionalSpecFns;
use vstd::utf8::encode_utf8;

use crate::entity::EntityId;
use crate::files::key_in;
use crate::files::FileKey;
use crate::files::FileSet;
use crate::ids::PseudoCommitId;
use crate::span::PartialPosition;
use crate::strutil::str_eq;

verus! {

/// The kind of a dependency. Most languages use only a subset.
#[derive(Clone, Copy, Debug, Hash, PartialEq, Eq, Structural)]
pub enum DepKind {
    Annotation,
    Call,
    Cast,
    Contain,
    Create,
    Dependency,
    Extend,
    Implement,
    Import,
    Link,
    MixIn,
    Parameter,
    Parent,
    Plugin,
    Receive,
    Return,
    // serialized as "Set"
    Assign,
    Throw,
    Use,
}

/// The characters of a dependency kind's name.
pub open spec fn dep_kind_chars(k: DepKind) -> Seq<char> {
    match k {
        DepKind::Annotation => "Annotation"@,
        DepKind::Call => "Call"@,
        DepKind::Cast => "Cast"@,
        DepKind::Contain => "Contain"@,
        DepKind::Create => "Create"@,
        DepKind::Dependency => "Dependency"@,
        DepKind::Extend => "Extend"@,
        DepKind::Implement => "Implement"@,
        DepKind::Import => "Import"@,
        DepKind::Link => "Link"@,
        DepKind::MixIn => "MixIn"@,
        DepKind::Parameter => "Parameter"@,
        DepKind::Parent => "Parent"@,
        DepKind::Plugin => "Plugin"@,
        DepKind::Receive => "Receive"@,
        DepKind::Return => "Return"@,
        DepKind::Assign => "Set"@,
        DepKind::Throw => "Throw"@,
        DepKind::Use => "Use"@,
    }
}

/// The UTF-8 bytes of a dependency kind's name.
pub open spec fn dep_kind_bytes(k: DepKind) -> Seq<u8> {
    encode_utf8(dep_kind_chars(k))
}

impl DepKind {
    /// The kind's name, as external tools write it.
    pub fn as_str(&self) -> (s: &'static str)
        ensures
            s@ == dep_kind_chars(*self),
    {
        match self {
            DepKind::Annotation => "Annotation",
            DepKind::Call => "Call",
            DepKind::Cast => "Cast",
            DepKind::Contain => "Contain",
            DepKind::Create => "Create",
            DepKind::Dependency => "Dependency",
            DepKind::Extend => "Extend",
            DepKind::Implement => "Implement",
            DepKind::Import => "Import",
            DepKind::Link => "Link",
            DepKind::MixIn => "MixIn",
            DepKind::Parameter => "Parameter",
            DepKind::Parent => "Parent",
            DepKind::Plugin => "Plugin",
            DepKind::Receive => "Receive",
            DepKind::Return => "Return",
            DepKind::Assign => "Set",
            DepKind::Throw => "Throw",
            DepKind::Use => "Use",
        }
    }

    /// Parse a kind's name, byte for byte.
    pub fn from_str(s: &str) -> (r: Option<DepKind>)
        ensures
            r matches Some(k) ==> s.spec_bytes() == dep_kind_bytes(k),
            r is None ==> forall|k: DepKind| s.spec_bytes() != dep_kind_bytes(k),
    {
        if str_eq(s, "Annotation") {
            Some(DepKind::Annotation)
        } else if str_eq(s, "Call") {
            Some(DepKind::Call)
        } else if str_eq(s, "Cast") {
            Some(DepKind::Cast)
        } else if str_eq(s, "Contain") {
            Some(DepKind::Contain)
        } else if str_eq(s, "Create") {
            Some(DepKind::Create)
        } else if str_eq(s, "Dependency") {
            Some(DepKind::Dependency)
        } else if str_eq(s, "Extend") {
            Some(DepKind::Extend)
        } else if str_eq(s, "Implement") {
            Some(DepKind::Implement)
        } else if str_eq(s, "Import") {
            Some(DepKind::Import)
        } else if str_eq(s, "Link") {
            Some(DepKind::Link)
        } else if str_eq(s, "MixIn") {
            Some(DepKind::MixIn)
        } else if str_eq(s, "Parameter") {
            Some(DepKind::Parameter)
        } else if str_eq(s, "Parent") {
            Some(DepKind::Parent)
        } else if str_eq(s, "Plugin") {
            Some(DepKind::Plugin)
        } else if str_eq(s, "Receive") {
            Some(DepKind::Receive)
        } else if str_eq(s, "Return") {
            Some(DepKind::Return)
        } else if str_eq(s, "Set") {
            Some(DepKind::Assign)
        } else if str_eq(s, "Throw") {
            Some(DepKind::Throw)
        } else if str_eq(s, "Use") {
            Some(DepKind::Use)
        } else {
            proof {
                assert forall|k: DepKind| s.spec_bytes() != dep_kind_bytes(k) by {
                    match k {
                        DepKind::Annotation => assert(dep_kind_chars(k) == "Annotation"@),
                        DepKind::Call => assert(dep_kind_chars(k) == "Call"@),
                        DepKind::Cast => assert(dep_kind_chars(k) == "Cast"@),
                        DepKind::Contain => assert(dep_kind_chars(k) == "Contain"@),
                        DepKind::Create => assert(dep_kind_chars(k) == "Create"@),
                        DepKind::Dependency => assert(dep_kind_chars(k) == "Dependency"@),
                        DepKind::Extend => assert(dep_kind_chars(k) == "Extend"@),
                        DepKind::Implement => assert(dep_kind_chars(k) == "Implement"@),
                        DepKind::Import => assert(dep_kind_chars(k) == "Import"@),
                        DepKind::Link => assert(dep_kind_chars(k) == "Link"@),
                        DepKind::MixIn => assert(dep_kind_chars(k) == "MixIn"@),
                        DepKind::Parameter => assert(dep_kind_chars(k) == "Parameter"@),
                        DepKind::Parent => assert(dep_kind_chars(k) == "Parent"@),
                        DepKind::Plugin => assert(dep_kind_chars(k) == "Plugin"@),
                        DepKind::Receive => assert(dep_kind_chars(k) == "Receive"@),
                        DepKind::Return => assert(dep_kind_chars(k) == "Return"@),
                        DepKind::Assign => assert(dep_kind_chars(k) == "Set"@),
                        DepKind::Throw => assert(dep_kind_chars(k) == "Throw"@),
                        DepKind::Use => assert(dep_kind_chars(k) == "Use"@),
                    }
                }
            }
            None
        }
    }
}

/// A syntactic dependency between two endpoints: where it stands in the
/// source, what kind it is, and at which revision it was seen.
#[derive(Clone, Debug)]
pub struct Dep<E> {
    pub src: E,
    pub tgt: E,
    pub kind: DepKind,
    pub position: PartialPosition,
    pub commit_id: PseudoCommitId,
}

impl<E> Dep<E> {
    pub fn new(src: E, tgt: E, kind: DepKind, position: PartialPosition, commit_id: PseudoCommitId)
        -> (d: Dep<E>)
        ensures
            d.src == src,
            d.tgt == tgt,
            d.kind == kind,
            d.position == position,
            d.commit_id == commit_id,
    {
        Dep { src, tgt, kind, position, commit_id }
    }
}

impl Dep<EntityId> {
    /// A self-dependency: source and target are the same entity.
    pub fn is_loop(&self) -> (r: bool)
        ensures
            r == (self.src == self.tgt),
    {
        self.src == self.tgt
    }
}

/// A file-level dependency endpoint.
#[derive(Clone, Debug)]
pub struct FileEndpoint {
    pub file_key: FileKey,
    pub position: PartialPosition,
}

impl FileEndpoint {
    pub fn new(file_key: FileKey, position: PartialPosition) -> (e: FileEndpoint)
        ensures
            e.file_key == file_key,
            e.position == position,
    {
        FileEndpoint { file_key, position }
    }
}

/// A file-level endpoint known only by filename, before the content id is
/// looked up.
#[derive(Clone, Debug)]
pub struct FilenameEndpoint {
    pub filename: String,
    pub position: PartialPosition,
}

impl FilenameEndpoint {
    pub fn new(filename: String, position: PartialPosition) -> (e: FilenameEndpoint)
        ensures
            e.filename == filename,
            e.position == position,
    {
        FilenameEndpoint { filename, position }
    }

    /// Resolve the filename against a revision's file set.
    pub fn into_file_endpoint(self, file_set: &FileSet) -> (r: Option<FileEndpoint>)
        ensures
            r matches Some(fe) ==> fe.file_key.filename@ == self.filename@ && fe.position
                == self.position && key_in(file_set.view_keys(), fe.file_key),
            r is None ==> forall|i: int|
                0 <= i < file_set.view_keys().len() ==> (
                #[trigger] file_set.view_keys()[i]).filename@ != self.filename@,
    {
        match file_set.get_content_id(&self.filename) {
            Some(c) => {
                let key = FileKey::new(self.filename, c);
                proof {
                    let i = choose|i: int|
                        0 <= i < file_set.view_keys().len() && (
                        #[trigger] file_set.view_keys()[i]).filename@ == key.filename@
                            && file_set.view_keys()[i].content_id == c;
                    assert(crate::files::key_matches(file_set.view_keys()[i], key));
                }
                Some(FileEndpoint { file_key: key, position: self.position })
            },
            None => None,
        }
    }
}

/// A dependency between files.
pub type FileDep = Dep<FileEndpoint>;

/// A dependency between filenames.
pub type FilenameDep = Dep<FilenameEndpoint>;

/// A dependency between entities.
pub type EntityDep = Dep<EntityId>;

impl Dep<FilenameEndpoint> {
    /// Resolve both endpoints against a revision's file set. The result is
    /// present exactly when both endpoint filenames occur in the set.
    pub fn into_file_dep(self, file_set: &FileSet) -> (r: Option<FileDep>)
        ensures
            r is Some <==> ((exists|i: int|
                0 <= i < file_set.view_keys().len() && (
                #[trigger] file_set.view_keys()[i]).filename@ == self.src.filename@) && (exists|
                i: int,
            |
                0 <= i < file_set.view_keys().len() && (
                #[trigger] file_set.view_keys()[i]).filename@ == self.tgt.filename@)),
            r matches Some(d) ==> d.kind == self.kind && d.position == self.position
                && d.commit_id == self.commit_id && d.src.file_key.filename@ == self.src.filename@
                && d.tgt.file_key.filename@ == self.tgt.filename@ && key_in(
                file_set.view_keys(),
                d.src.file_key,
            ) && key_in(file_set.view_keys(), d.tgt.file_key),
    {
        let Dep { src, tgt, kind, position, commit_id } = self;
        let src = match src.into_file_endpoint(file_set) {
            Some(s) => s,
            None => {
                return None;
            },
        };
        let tgt = match tgt.into_file_endpoint(file_set) {
            Some(t) => t,
            None => {
                return None;
            },
        };
        Some(Dep { src, tgt, kind, position, commit_id })
    }
}

/// Dependencies with every self-loop removed, in order.
pub open spec fn kept_deps(ds: Seq<EntityDep>) -> Seq<EntityDep>
    decreases ds.len(),
{
    if ds.len() == 0 {
        Seq::empty()
    } else {
        let rest = kept_deps(ds.drop_last());
        if ds.last().src == ds.last().tgt {
            rest
        } else {
            rest.push(ds.last())
        }
    }
}

/// Drop every dependency whose source and target are the same entity:
/// exactly the non-loop dependencies come out, in order, and no edge of
/// the result is a self-loop.
pub fn drop_self_loops(deps: Vec<EntityDep>) -> (r: Vec<EntityDep>)
    ensures
        r@ == kept_deps(deps@),
        forall|i: int| 0 <= i < r@.len() ==> (#[trigger] r@[i]).src != r@[i].tgt,
{
    let n = deps.len();
    let mut out: Vec<EntityDep> = Vec::new();
    let mut i: usize = 0;
    proof {
        assert(deps@.take(0) =~= Seq::<EntityDep>::empty());
    }
    while i < n
        invariant
            n == deps@.len(),
            i <= n,
            out@ == kept_deps(deps@.take(i as int)),
            forall|j: int| 0 <= j < out@.len() ==> (#[trigger] out@[j]).src != out@[j].tgt,
        decreases n - i,
    {
        proof {
            assert(deps@.take(i + 1) =~= deps@.take(i as int).push(deps@[i as int]));
            assert(deps@.take(i + 1).drop_last() =~= deps@.take(i as int));
        }
        let d = &deps[i];
        if !d.is_loop() {
            let ghost before = out@;
            out.push(deps[i].clone_dep());
            proof {
                assert(out@.drop_last() =~= before);
                assert(out@.last() == deps@[i as int]);
            }
        }
        i = i + 1;
    }
    proof {
        assert(deps@.take(n as int) =~= deps@);
    }
    out
}

/// An owned copy of an entity-level dependency.
impl Dep<EntityId> {
    pub fn clone_dep(&self) -> (r: EntityDep)
        ensures
            r == *self,
    {
        Dep {
            src: self.src,
            tgt: self.tgt,
            kind: self.kind,
            position: self.position,
            commit_id: self.commit_id,
        }
    }
}

} // verus!
