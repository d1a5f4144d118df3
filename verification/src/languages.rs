//! Language dispatch: which language a filename belongs to, and the
//! filters that select files by language or by name.

use vstd::prelude::*;
use vstd::string::StringSliceAdditionalSpecFns;
use vstd::utf8::encode_utf8;

use crate::strutil::lower_bytes;
use crate::strutil::to_lower;

verus! {

/// Each programming language the scanner supports.
#[derive(Clone, Copy, Debug, Hash, PartialEq, Eq, Structural)]
pub enum Lang {
    C,
    Cpp,
    Go,
    Java,
    JavaScript,
    Kotlin,
    Python,
    Ruby,
    TypeScript,
}

/// The bytes after the last dot, or the whole name when it has no dot.
pub open spec fn last_ext(b: Seq<u8>) -> Seq<u8>
    decreases b.len(),
{
    if b.len() == 0 {
        b
    } else if b.last() == 0x2eu8 {
        Seq::empty()
    } else {
        last_ext(b.drop_last()).push(b.last())
    }
}

/// The language registered for a lower-case extension.
pub open spec fn ext_lang(ext: Seq<u8>) -> Option<Lang> {
    if ext == encode_utf8("c"@) {
        Some(Lang::C)
    } else if ext == encode_utf8("c++"@) || ext == encode_utf8("cc"@) || ext == encode_utf8("cpp"@)
        || ext == encode_utf8("cxx"@) || ext == encode_utf8("h++"@) || ext == encode_utf8("hh"@)
        || ext == encode_utf8("hpp"@) || ext == encode_utf8("hxx"@) {
        Some(Lang::Cpp)
    } else if ext == encode_utf8("go"@) {
        Some(Lang::Go)
    } else if ext == encode_utf8("java"@) {
        Some(Lang::Java)
    } else if ext == encode_utf8("js"@) {
        Some(Lang::JavaScript)
    } else if ext == encode_utf8("kt"@) {
        Some(Lang::Kotlin)
    } else if ext == encode_utf8("py"@) {
        Some(Lang::Python)
    } else if ext == encode_utf8("rb"@) {
        Some(Lang::Ruby)
    } else if ext == encode_utf8("ts"@) {
        Some(Lang::TypeScript)
    } else {
        None::<Lang>
    }
}

/// The language of a filename: a special file name, or the lower-cased
/// extension.
pub open spec fn lang_of(name: Seq<u8>) -> Option<Lang> {
    if lower_bytes(name) == encode_utf8("tsconfig.json"@) {
        Some(Lang::TypeScript)
    } else {
        ext_lang(last_ext(lower_bytes(name)))
    }
}

/// Byte-for-byte equality of two byte slices.
fn bytes_eq(a: &[u8], b: &[u8]) -> (r: bool)
    ensures
        r == (a@ == b@),
{
    if a.len() != b.len() {
        return false;
    }
    let n = a.len();
    let mut i: usize = 0;
    while i < n
        invariant
            n == a@.len() == b@.len(),
            i <= n,
            forall|j: int| 0 <= j < i ==> a@[j] == b@[j],
        decreases n - i,
    {
        if a[i] != b[i] {
            return false;
        }
        i = i + 1;
    }
    proof {
        assert(a@ =~= b@);
    }
    true
}

impl Lang {
    /// The language for a filename, if one is registered.
    pub fn of(filename: &str) -> (r: Option<Lang>)
        ensures
            r == lang_of(filename.spec_bytes()),
    {
        let lower = to_lower(filename.as_bytes());
        if bytes_eq(lower.as_slice(), "tsconfig.json".as_bytes()) {
            return Some(Lang::TypeScript);
        }
        // find the start of the extension: just after the last dot
        let n = lower.len();
        let mut ls: usize = 0;
        let mut i: usize = 0;
        proof {
            assert(lower@.take(0) =~= Seq::<u8>::empty());
        }
        while i < n
            invariant
                n == lower@.len(),
                i <= n,
                ls <= i,
                last_ext(lower@.take(i as int)) =~= lower@.take(i as int).skip(ls as int),
            decreases n - i,
        {
            proof {
                assert(lower@.take(i + 1) =~= lower@.take(i as int).push(lower@[i as int]));
                assert(lower@.take(i + 1).drop_last() =~= lower@.take(i as int));
            }
            if lower[i] == 0x2e {
                ls = i + 1;
                proof {
                    assert(last_ext(lower@.take(i + 1)) =~= lower@.take(i + 1).skip(ls as int));
                }
            } else {
                proof {
                    assert(lower@.take(i + 1).skip(ls as int) =~= lower@.take(i as int).skip(
                        ls as int,
                    ).push(lower@[i as int]));
                }
            }
            i = i + 1;
        }
        proof {
            assert(lower@.take(n as int) =~= lower@);
        }
        let mut ext: Vec<u8> = Vec::new();
        let mut k: usize = ls;
        while k < n
            invariant
                n == lower@.len(),
                ls <= k <= n,
                ext@ =~= lower@.subrange(ls as int, k as int),
            decreases n - k,
        {
            ext.push(lower[k]);
            proof {
                assert(lower@.subrange(ls as int, k + 1) =~= lower@.subrange(
                    ls as int,
                    k as int,
                ).push(lower@[k as int]));
            }
            k = k + 1;
        }
        proof {
            assert(ext@ =~= lower@.skip(ls as int));
        }
        if bytes_eq(ext.as_slice(), "c".as_bytes()) {
            Some(Lang::C)
        } else if bytes_eq(ext.as_slice(), "c++".as_bytes()) || bytes_eq(
            ext.as_slice(),
            "cc".as_bytes(),
        ) || bytes_eq(ext.as_slice(), "cpp".as_bytes()) || bytes_eq(
            ext.as_slice(),
            "cxx".as_bytes(),
        ) || bytes_eq(ext.as_slice(), "h++".as_bytes()) || bytes_eq(
            ext.as_slice(),
            "hh".as_bytes(),
        ) || bytes_eq(ext.as_slice(), "hpp".as_bytes()) || bytes_eq(
            ext.as_slice(),
            "hxx".as_bytes(),
        ) {
            Some(Lang::Cpp)
        } else if bytes_eq(ext.as_slice(), "go".as_bytes()) {
            Some(Lang::Go)
        } else if bytes_eq(ext.as_slice(), "java".as_bytes()) {
            Some(Lang::Java)
        } else if bytes_eq(ext.as_slice(), "js".as_bytes()) {
            Some(Lang::JavaScript)
        } else if bytes_eq(ext.as_slice(), "kt".as_bytes()) {
            Some(Lang::Kotlin)
        } else if bytes_eq(ext.as_slice(), "py".as_bytes()) {
            Some(Lang::Python)
        } else if bytes_eq(ext.as_slice(), "rb".as_bytes()) {
            Some(Lang::Ruby)
        } else if bytes_eq(ext.as_slice(), "ts".as_bytes()) {
            Some(Lang::TypeScript)
        } else {
            None
        }
    }

    /// The language's name in lower case.
    pub fn as_str(&self) -> (s: &'static str)
        ensures
            s@ == lang_chars(*self),
    {
        match self {
            Lang::C => "c",
            Lang::Cpp => "cpp",
            Lang::Go => "go",
            Lang::Java => "java",
            Lang::JavaScript => "javascript",
            Lang::Kotlin => "kotlin",
            Lang::Python => "python",
            Lang::Ruby => "ruby",
            Lang::TypeScript => "typescript",
        }
    }

    /// The name the external resolver tool knows this language by, if it
    /// supports it.
    pub fn depends_lang(&self) -> (r: Option<&'static str>)
        ensures
            r is Some <==> depends_supported(*self),
            r matches Some(s) ==> s@ == depends_lang_chars(*self),
    {
        match self {
            Lang::C => Some("cpp"),
            Lang::Cpp => Some("cpp"),
            Lang::Go => Some("go"),
            Lang::Java => Some("java"),
            Lang::JavaScript => None,
            Lang::Kotlin => Some("kotlin"),
            Lang::Python => Some("python"),
            Lang::Ruby => Some("ruby"),
            Lang::TypeScript => None,
        }
    }
}

/// The characters of a language's name.
pub open spec fn lang_chars(l: Lang) -> Seq<char> {
    match l {
        Lang::C => "c"@,
        Lang::Cpp => "cpp"@,
        Lang::Go => "go"@,
        Lang::Java => "java"@,
        Lang::JavaScript => "javascript"@,
        Lang::Kotlin => "kotlin"@,
        Lang::Python => "python"@,
        Lang::Ruby => "ruby"@,
        Lang::TypeScript => "typescript"@,
    }
}

/// Whether the external resolver tool supports the language.
pub open spec fn depends_supported(l: Lang) -> bool {
    !(l is JavaScript || l is TypeScript)
}

/// The name the external resolver tool uses for a supported language.
pub open spec fn depends_lang_chars(l: Lang) -> Seq<char> {
    match l {
        Lang::C => "cpp"@,
        Lang::Cpp => "cpp"@,
        Lang::Go => "go"@,
        Lang::Java => "java"@,
        Lang::Kotlin => "kotlin"@,
        Lang::Python => "python"@,
        Lang::Ruby => "ruby"@,
        _ => ""@,
    }
}

/// Which files an operation takes: those of certain languages, or those
/// with certain names.
#[derive(Clone, Debug)]
pub enum FileFilter {
    ByLang(Vec<Lang>),
    ByFilename(Vec<String>),
}

/// What a filter includes.
pub open spec fn filter_includes(f: FileFilter, name: Seq<char>) -> bool {
    match f {
        FileFilter::ByLang(langs) => exists|i: int|
            0 <= i < langs@.len() && Some(#[trigger] langs@[i]) == lang_of(encode_utf8(name)),
        FileFilter::ByFilename(names) => exists|i: int|
            0 <= i < names@.len() && (#[trigger] names@[i])@ == name,
    }
}

impl FileFilter {
    /// A filter taking the files of the given languages.
    pub fn from_langs(langs: Vec<Lang>) -> (r: FileFilter)
        ensures
            r == FileFilter::ByLang(langs),
    {
        FileFilter::ByLang(langs)
    }

    /// A filter taking exactly the given filenames.
    pub fn from_filenames(filenames: Vec<String>) -> (r: FileFilter)
        ensures
            r == FileFilter::ByFilename(filenames),
    {
        FileFilter::ByFilename(filenames)
    }

    /// Whether the filter takes this filename.
    pub fn includes(&self, filename: &String) -> (r: bool)
        ensures
            r == filter_includes(*self, filename@),
    {
        match self {
            FileFilter::ByLang(langs) => {
                let lang = Lang::of(filename.as_str());
                match lang {
                    Some(l) => {
                        let n = langs.len();
                        let mut found = false;
                        let mut i: usize = 0;
                        while i < n
                            invariant
                                n == langs@.len(),
                                i <= n,
                                Some(l) == lang_of(encode_utf8(filename@)),
                                found <==> exists|j: int|
                                    0 <= j < i && Some(#[trigger] langs@[j]) == lang_of(
                                        encode_utf8(filename@),
                                    ),
                            decreases n - i,
                        {
                            if langs[i] == l {
                                proof {
                                    assert(Some(langs@[i as int]) == lang_of(
                                        encode_utf8(filename@),
                                    ));
                                }
                                found = true;
                            }
                            i = i + 1;
                        }
                        found
                    },
                    None => {
                        proof {
                            if filter_includes(*self, filename@) {
                                let j = choose|j: int|
                                    0 <= j < langs@.len() && Some(#[trigger] langs@[j]) == lang_of(
                                        encode_utf8(filename@),
                                    );
                            }
                        }
                        false
                    },
                }
            },
            FileFilter::ByFilename(names) => {
                let n = names.len();
                let mut found = false;
                let mut i: usize = 0;
                while i < n
                    invariant
                        n == names@.len(),
                        i <= n,
                        found <==> exists|j: int|
                            0 <= j < i && (#[trigger] names@[j])@ == filename@,
                    decreases n - i,
                {
                    if names[i] == *filename {
                        proof {
                            assert((names@[i as int])@ == filename@);
                        }
                        found = true;
                    }
                    i = i + 1;
                }
                found
            },
        }
    }
}

} // verus!
