//! Converting the external resolver tool's output into dependencies.
//!
//! The external tool reports (file, line, file, line, kind) records with
//! 1-based lines and sometimes a `(possible)` suffix on the kind. The
//! conversion to 0-based rows and parsed kinds is verified; running the
//! tool and reading its output stay outside the core.

use vstd::prelude::*;
use vstd::string::StringSliceAdditionalSpecFns;
use vstd::utf8::encode_utf8;

use crate::dep::dep_kind_bytes;
use crate::dep::DepKind;
use crate::dep::FilenameDep;
use crate::dep::FilenameEndpoint;
use crate::ids::PseudoCommitId;
use crate::span::PartialPosition;

verus! {

/// All options needed to run the external resolver tool.
#[derive(Clone, Debug)]
pub struct DependsConfig {
    /// The path of the tool's jar archive.
    pub jar: Option<String>,
    /// The path of the runtime executable to run the jar with.
    pub java: Option<String>,
    /// The heap-size flag value handed to the runtime.
    pub xmx: Option<String>,
}

impl DependsConfig {
    pub fn new(jar: Option<String>, java: Option<String>, xmx: Option<String>) -> (r:
        DependsConfig)
        ensures
            r.jar == jar,
            r.java == java,
            r.xmx == xmx,
    {
        DependsConfig { jar, java, xmx }
    }
}

/// The bytes of the marker `(possible)` that the tool may append.
pub open spec fn possible_marker() -> Seq<u8> {
    seq![0x28u8, 0x70u8, 0x6fu8, 0x73u8, 0x73u8, 0x69u8, 0x62u8, 0x6cu8, 0x65u8, 0x29u8]
}

/// The kind string with a trailing `(possible)` marker removed.
pub open spec fn strip_possible(b: Seq<u8>) -> Seq<u8> {
    if b.len() >= 10 && b.skip(b.len() - 10) == possible_marker() {
        b.take(b.len() - 10)
    } else {
        b
    }
}

/// Parse a reported kind, ignoring a `(possible)` marker.
pub fn parse_dep_kind(kind: &str) -> (r: Option<DepKind>)
    ensures
        r matches Some(k) ==> strip_possible(kind.spec_bytes()) == dep_kind_bytes(k),
        r is None ==> forall|k: DepKind|
            strip_possible(kind.spec_bytes()) != dep_kind_bytes(k),
{
    let b = kind.as_bytes();
    let n = b.len();
    let mut marker: Vec<u8> = Vec::new();
    marker.push(0x28);  // '('
    marker.push(0x70);  // 'p'
    marker.push(0x6f);  // 'o'
    marker.push(0x73);  // 's'
    marker.push(0x73);  // 's'
    marker.push(0x69);  // 'i'
    marker.push(0x62);  // 'b'
    marker.push(0x6c);  // 'l'
    marker.push(0x65);  // 'e'
    marker.push(0x29);  // ')'
    proof {
        assert(marker@ =~= possible_marker());
    }
    let stripped: Vec<u8> = if n >= 10 {
        let mut is_suffix = true;
        let mut i: usize = 0;
        while i < 10
            invariant
                i <= 10,
                n == b@.len(),
                n >= 10,
                marker@ == possible_marker(),
                is_suffix <==> forall|j: int| 0 <= j < i ==> b@[n - 10 + j] == marker@[j],
            decreases 10 - i,
        {
            if b[n - 10 + i] != marker[i] {
                proof {
                    assert(b@[n - 10 + i as int] != marker@[i as int]);
                }
                is_suffix = false;
                i = 10;
            } else {
                i = i + 1;
            }
        }
        if is_suffix {
            proof {
                assert(b@.skip(n - 10) =~= marker@);
            }
            let mut v: Vec<u8> = Vec::new();
            let mut k: usize = 0;
            while k < n - 10
                invariant
                    n == b@.len(),
                    n >= 10,
                    k <= n - 10,
                    v@ =~= b@.take(k as int),
                decreases n - 10 - k,
            {
                v.push(b[k]);
                proof {
                    assert(b@.take(k + 1) =~= b@.take(k as int).push(b@[k as int]));
                }
                k = k + 1;
            }
            v
        } else {
            proof {
                assert(b@.skip(n - 10) != marker@) by {
                    let j = choose|j: int| 0 <= j < 10 && b@[n - 10 + j] != marker@[j];
                    assert(b@.skip(n - 10)[j] != marker@[j]);
                }
            }
            let mut v: Vec<u8> = Vec::new();
            let mut k: usize = 0;
            while k < n
                invariant
                    n == b@.len(),
                    k <= n,
                    v@ =~= b@.take(k as int),
                decreases n - k,
            {
                v.push(b[k]);
                proof {
                    assert(b@.take(k + 1) =~= b@.take(k as int).push(b@[k as int]));
                }
                k = k + 1;
            }
            proof {
                assert(b@.take(n as int) =~= b@);
            }
            v
        }
    } else {
        let mut v: Vec<u8> = Vec::new();
        let mut k: usize = 0;
        while k < n
            invariant
                n == b@.len(),
                k <= n,
                v@ =~= b@.take(k as int),
            decreases n - k,
        {
            v.push(b[k]);
            proof {
                assert(b@.take(k + 1) =~= b@.take(k as int).push(b@[k as int]));
            }
            k = k + 1;
        }
        proof {
            assert(b@.take(n as int) =~= b@);
        }
        v
    };
    proof {
        assert(stripped@ == strip_possible(kind.spec_bytes()));
    }
    dep_kind_from_bytes(&stripped)
}

/// Parse a kind's name from raw bytes.
fn dep_kind_from_bytes(b: &Vec<u8>) -> (r: Option<DepKind>)
    ensures
        r matches Some(k) ==> b@ == dep_kind_bytes(k),
        r is None ==> forall|k: DepKind| b@ != dep_kind_bytes(k),
{
    let kinds: [DepKind; 19] = [
        DepKind::Annotation,
        DepKind::Call,
        DepKind::Cast,
        DepKind::Contain,
        DepKind::Create,
        DepKind::Dependency,
        DepKind::Extend,
        DepKind::Implement,
        DepKind::Import,
        DepKind::Link,
        DepKind::MixIn,
        DepKind::Parameter,
        DepKind::Parent,
        DepKind::Plugin,
        DepKind::Receive,
        DepKind::Return,
        DepKind::Assign,
        DepKind::Throw,
        DepKind::Use,
    ];
    let mut i: usize = 0;
    while i < 19
        invariant
            i <= 19,
            forall|j: int|
                0 <= j < 19 ==> kinds@[j] == seq![
                    DepKind::Annotation,
                    DepKind::Call,
                    DepKind::Cast,
                    DepKind::Contain,
                    DepKind::Create,
                    DepKind::Dependency,
                    DepKind::Extend,
                    DepKind::Implement,
                    DepKind::Import,
                    DepKind::Link,
                    DepKind::MixIn,
                    DepKind::Parameter,
                    DepKind::Parent,
                    DepKind::Plugin,
                    DepKind::Receive,
                    DepKind::Return,
                    DepKind::Assign,
                    DepKind::Throw,
                    DepKind::Use,
                ][j],
            forall|j: int| 0 <= j < i ==> b@ != dep_kind_bytes(kinds@[j]),
        decreases 19 - i,
    {
        let k = kinds[i];
        if bytes_eq_str(b, k.as_str()) {
            return Some(k);
        }
        i = i + 1;
    }
    proof {
        assert forall|k: DepKind| b@ != dep_kind_bytes(k) by {
            match k {
                DepKind::Annotation => assert(k == kinds@[0]),
                DepKind::Call => assert(k == kinds@[1]),
                DepKind::Cast => assert(k == kinds@[2]),
                DepKind::Contain => assert(k == kinds@[3]),
                DepKind::Create => assert(k == kinds@[4]),
                DepKind::Dependency => assert(k == kinds@[5]),
                DepKind::Extend => assert(k == kinds@[6]),
                DepKind::Implement => assert(k == kinds@[7]),
                DepKind::Import => assert(k == kinds@[8]),
                DepKind::Link => assert(k == kinds@[9]),
                DepKind::MixIn => assert(k == kinds@[10]),
                DepKind::Parameter => assert(k == kinds@[11]),
                DepKind::Parent => assert(k == kinds@[12]),
                DepKind::Plugin => assert(k == kinds@[13]),
                DepKind::Receive => assert(k == kinds@[14]),
                DepKind::Return => assert(k == kinds@[15]),
                DepKind::Assign => assert(k == kinds@[16]),
                DepKind::Throw => assert(k == kinds@[17]),
                DepKind::Use => assert(k == kinds@[18]),
            }
        }
    }
    None
}

/// Byte-for-byte equality of a byte vector and a string slice.
fn bytes_eq_str(a: &Vec<u8>, b: &str) -> (r: bool)
    ensures
        r == (a@ == b.spec_bytes()),
{
    let bb = b.as_bytes();
    if a.len() != bb.len() {
        return false;
    }
    let n = a.len();
    let mut i: usize = 0;
    while i < n
        invariant
            n == a@.len() == bb@.len(),
            bb@ == b.spec_bytes(),
            i <= n,
            forall|j: int| 0 <= j < i ==> a@[j] == bb@[j],
        decreases n - i,
    {
        if a[i] != bb[i] {
            return false;
        }
        i = i + 1;
    }
    proof {
        assert(a@ =~= b.spec_bytes());
    }
    true
}

/// Convert one record of the external tool's output into a dependency
/// between filenames: 1-based lines become 0-based rows, the kind string
/// is parsed with any `(possible)` marker ignored.
pub fn into_filename_dep(
    src_file: String,
    src_line: usize,
    dst_file: String,
    dst_line: usize,
    kind: &str,
    commit_id: PseudoCommitId,
) -> (r: Option<FilenameDep>)
    requires
        src_line >= 1,
        dst_line >= 1,
    ensures
        r matches Some(d) ==> d.src.filename@ == src_file@ && d.tgt.filename@ == dst_file@
            && d.src.position == PartialPosition::Row((src_line - 1) as usize) && d.tgt.position
            == PartialPosition::Row((dst_line - 1) as usize) && d.position == d.src.position
            && d.commit_id == commit_id && strip_possible(kind.spec_bytes()) == dep_kind_bytes(
            d.kind,
        ),
        r is None ==> forall|k: DepKind|
            strip_possible(kind.spec_bytes()) != dep_kind_bytes(k),
{
    let k = match parse_dep_kind(kind) {
        Some(k) => k,
        None => {
            return None;
        },
    };
    let src = FilenameEndpoint { filename: src_file, position: PartialPosition::Row(src_line - 1) };
    let tgt = FilenameEndpoint { filename: dst_file, position: PartialPosition::Row(dst_line - 1) };
    let position = src.position;
    Some(crate::dep::Dep { src, tgt, kind: k, position, commit_id })
}

} // verus!
