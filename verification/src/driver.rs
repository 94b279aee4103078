//! File-kind bookkeeping for the compilation pipeline: the kinds a file
//! passes through and the names they carry. Reading, writing and the
//! calls into the system toolchain live outside the verified core.

use vstd::prelude::*;

use crate::text::{push_str, rfind, rfind_char, str_eq, substring_chars};

verus! {

/// The processing stage a file belongs to, keyed by its extension.
#[derive(Clone, PartialEq, Eq, Structural)]
pub enum ProcFileKind {
    Source,
    Preprocessed,
    Assembly,
    Binary,
}

/// The kind an extension denotes: `c`, `i` and `S` name the stages, and
/// anything else is a finished binary.
pub open spec fn kind_of_ext(ext: Seq<char>) -> ProcFileKind {
    if ext == "c"@ {
        ProcFileKind::Source
    } else if ext == "i"@ {
        ProcFileKind::Preprocessed
    } else if ext == "S"@ {
        ProcFileKind::Assembly
    } else {
        ProcFileKind::Binary
    }
}

impl From<&str> for ProcFileKind {
    /// The kind for an extension.
    fn from(ext: &str) -> (k: Self) {
        if str_eq(ext, "c") {
            ProcFileKind::Source
        } else if str_eq(ext, "i") {
            ProcFileKind::Preprocessed
        } else if str_eq(ext, "S") {
            ProcFileKind::Assembly
        } else {
            ProcFileKind::Binary
        }
    }
}

impl vstd::std_specs::convert::FromSpecImpl<&str> for ProcFileKind {
    open spec fn obeys_from_spec() -> bool {
        true
    }

    open spec fn from_spec(ext: &str) -> Self {
        kind_of_ext(ext@)
    }
}

impl ProcFileKind {
    /// The dotted extension this kind appends to a file stem.
    pub fn get_ext(&self) -> (r: &'static str)
        ensures
            *self is Source ==> r@ == ".c"@,
            *self is Preprocessed ==> r@ == ".i"@,
            *self is Assembly ==> r@ == ".S"@,
            *self is Binary ==> r@ == ""@,
    {
        match self {
            ProcFileKind::Source => ".c",
            ProcFileKind::Preprocessed => ".i",
            ProcFileKind::Assembly => ".S",
            ProcFileKind::Binary => "",
        }
    }

    /// The kind's display name.
    pub fn kind_name(&self) -> (r: &'static str)
        ensures
            *self is Source ==> r@ == "Source"@,
            *self is Preprocessed ==> r@ == "Preprocessed"@,
            *self is Assembly ==> r@ == "Assembly"@,
            *self is Binary ==> r@ == "Binary"@,
    {
        match self {
            ProcFileKind::Source => "Source",
            ProcFileKind::Preprocessed => "Preprocessed",
            ProcFileKind::Assembly => "Assembly",
            ProcFileKind::Binary => "Binary",
        }
    }

    /// The dotted extension, as the view this kind's file names carry.
    pub open spec fn spec_ext(&self) -> Seq<char> {
        match self {
            ProcFileKind::Source => ".c"@,
            ProcFileKind::Preprocessed => ".i"@,
            ProcFileKind::Assembly => ".S"@,
            ProcFileKind::Binary => ""@,
        }
    }
}

/// `p` without its trailing separators and trailing `.` components,
/// which the platform's path type ignores when naming a file.
pub open spec fn spec_trim(p: Seq<char>) -> Seq<char>
    decreases p.len(),
{
    if p.len() > 0 && p.last() == '/' {
        spec_trim(p.drop_last())
    } else if p.len() == 1 && p[0] == '.' {
        Seq::empty()
    } else if p.len() >= 2 && p.last() == '.' && p[p.len() - 2] == '/' {
        spec_trim(p.drop_last())
    } else {
        p
    }
}

/// `p` without its trailing separators.
pub open spec fn spec_strip_slashes(p: Seq<char>) -> Seq<char>
    decreases p.len(),
{
    if p.len() > 0 && p.last() == '/' {
        spec_strip_slashes(p.drop_last())
    } else {
        p
    }
}

/// The file-name component of `p`: its last component, once trailing
/// separators and `.` components are ignored. It comes out empty when
/// nothing is left, and `..` when the path ends in a parent step; neither
/// names a file.
pub open spec fn spec_file_name(p: Seq<char>) -> Seq<char> {
    let t = spec_trim(p);
    t.skip(rfind(t, '/') + 1)
}

/// Whether `p` names a file at all: its last component is neither empty
/// nor a parent step.
pub open spec fn names_file(p: Seq<char>) -> bool {
    spec_file_name(p).len() > 0 && spec_file_name(p) != ".."@
}

/// The directory part of `p`: the path without its file-name component
/// and the separators before it. A lone root survives as `/`; a path
/// whose file name has no directory left gets the empty one.
pub open spec fn spec_parent(p: Seq<char>) -> Seq<char> {
    let t = spec_trim(p);
    if rfind(t, '/') >= 0 {
        let d = spec_strip_slashes(t.take(rfind(t, '/')));
        if d.len() == 0 && t[0] == '/' {
            seq!['/']
        } else {
            d
        }
    } else {
        Seq::empty()
    }
}

/// The stem of a file name: everything before the last `.`, unless the
/// dot comes first.
pub open spec fn spec_stem(file: Seq<char>) -> Seq<char> {
    if rfind(file, '.') > 0 {
        file.take(rfind(file, '.'))
    } else {
        file
    }
}

/// The extension of a file name: everything after the last `.`, if the
/// dot is neither first nor missing.
pub open spec fn spec_extension(file: Seq<char>) -> Option<Seq<char>> {
    if rfind(file, '.') > 0 {
        Some(file.skip(rfind(file, '.') + 1))
    } else {
        None
    }
}

/// One file of the pipeline: its stem, the directory it sits in, and the
/// stage it belongs to.
#[derive(Clone)]
pub struct ProcFile {
    pub name: String,
    pub path: String,
    pub kind: ProcFileKind,
}

impl ProcFile {
    /// Splits `path` into directory, stem and kind, reading it the way
    /// the platform's path type does; nothing when the path names no
    /// file, because nothing is left of it once trailing separators and
    /// `.` components are ignored, or because it ends in a parent step.
    pub fn from_path(path: &str) -> (r: Option<ProcFile>)
        ensures
            match r {
                Some(f) => {
                    &&& names_file(path@)
                    &&& f.name@ == spec_stem(spec_file_name(path@))
                    &&& f.path@ == spec_parent(path@)
                    &&& f.kind == (match spec_extension(spec_file_name(path@)) {
                        Some(e) => kind_of_ext(e),
                        None => ProcFileKind::Binary,
                    })
                },
                None => !names_file(path@),
            },
    {
        let n = path.unicode_len();
        let mut end: usize = n;
        proof {
            assert(path@.take(n as int) =~= path@);
        }
        loop
            invariant_except_break
                end <= n,
                n == path@.len(),
                spec_trim(path@) == spec_trim(path@.take(end as int)),
            ensures
                end <= n,
                n == path@.len(),
                spec_trim(path@) == path@.take(end as int),
                end > 0 ==> path@[end - 1] != '/',
            decreases end,
        {
            if end > 0 && path.get_char(end - 1) == '/' {
                proof {
                    assert(path@.take(end as int).drop_last() =~= path@.take(end - 1));
                }
                end = end - 1;
            } else if end == 1 && path.get_char(0) == '.' {
                proof {
                    assert(path@.take(0int) =~= Seq::<char>::empty());
                    assert(spec_trim(path@.take(1int)) =~= Seq::<char>::empty());
                }
                end = 0;
            } else if end >= 2 && path.get_char(end - 1) == '.' && path.get_char(end - 2) == '/' {
                proof {
                    assert(path@.take(end as int).drop_last() =~= path@.take(end - 1));
                }
                end = end - 1;
            } else {
                proof {
                    let tk = path@.take(end as int);
                    if end > 0 {
                        assert(tk.last() == path@[end - 1]);
                        if end >= 2 {
                            assert(tk[end - 2] == path@[end - 2]);
                        }
                    }
                    assert(spec_trim(tk) == tk);
                }
                break ;
            }
        }
        if end == 0 {
            proof {
                assert(spec_file_name(path@) =~= Seq::<char>::empty());
            }
            return None;
        }
        let trimmed = substring_chars(path, 0, end);
        let t = trimmed.as_str();
        let ghost tv = t@;
        proof {
            assert(tv == spec_trim(path@));
            assert(tv.len() == end);
            crate::text::lemma_rfind(tv, '/');
        }
        let (file, parent) = match rfind_char(t, '/') {
            Some(i) => {
                proof {
                    assert(tv[i as int] == '/');
                    assert(tv[end - 1] == path@[end - 1]);
                }
                let file = substring_chars(t, i + 1, end);
                let mut pend = i;
                while pend > 0 && t.get_char(pend - 1) == '/'
                    invariant
                        pend <= i < end,
                        tv == t@,
                        end == tv.len(),
                        spec_strip_slashes(tv.take(i as int)) == spec_strip_slashes(
                            tv.take(pend as int),
                        ),
                    decreases pend,
                {
                    proof {
                        assert(tv.take(pend as int).drop_last() =~= tv.take(pend - 1));
                    }
                    pend = pend - 1;
                }
                proof {
                    let tk = tv.take(pend as int);
                    if pend > 0 {
                        assert(tk.last() == tv[pend - 1]);
                    }
                    assert(spec_strip_slashes(tk) == tk);
                }
                let parent = if pend == 0 {
                    if t.get_char(0) == '/' {
                        let mut root = String::new();
                        crate::text::push_char(&mut root, '/');
                        proof {
                            assert(root@ =~= seq!['/']);
                            assert(tv.take(0int) =~= Seq::<char>::empty());
                        }
                        root
                    } else {
                        proof {
                            assert(tv.take(0int) =~= Seq::<char>::empty());
                        }
                        String::new()
                    }
                } else {
                    substring_chars(t, 0, pend)
                };
                proof {
                    assert(file@ =~= spec_file_name(path@));
                    assert(parent@ == spec_parent(path@));
                }
                (file, parent)
            },
            None => {
                let file = substring_chars(t, 0, end);
                proof {
                    assert(file@ =~= tv);
                    assert(file@ =~= spec_file_name(path@));
                }
                (file, String::new())
            },
        };
        proof {
            assert(file@ == spec_file_name(path@));
            assert(parent@ == spec_parent(path@));
            assert(file@.len() > 0);
        }
        if str_eq(file.as_str(), "..") {
            return None;
        }
        let m = file.as_str().unicode_len();
        proof {
            crate::text::lemma_rfind(file@, '.');
        }
        let (name, kind) = match rfind_char(file.as_str(), '.') {
            Some(d) if d > 0 => {
                let stem = substring_chars(file.as_str(), 0, d);
                let ext = substring_chars(file.as_str(), d + 1, m);
                let kind = ProcFileKind::from(ext.as_str());
                (stem, kind)
            },
            _ => (substring_chars(file.as_str(), 0, m), ProcFileKind::Binary),
        };
        proof {
            assert(file@.subrange(0, m as int) =~= file@);
        }
        Some(ProcFile { name, path: parent, kind })
    }

    /// Splits a bare file name like [`ProcFile::from_path`].
    pub fn from_fn(filename: &str) -> (r: Option<ProcFile>)
        ensures
            match r {
                Some(f) => {
                    &&& names_file(filename@)
                    &&& f.name@ == spec_stem(spec_file_name(filename@))
                    &&& f.path@ == spec_parent(filename@)
                    &&& f.kind == (match spec_extension(spec_file_name(filename@)) {
                        Some(e) => kind_of_ext(e),
                        None => ProcFileKind::Binary,
                    })
                },
                None => !names_file(filename@),
            },
    {
        Self::from_path(filename)
    }

    /// The full file name this file stands for: directory, stem and the
    /// kind's extension, with a separator added only where the directory
    /// does not already end in one.
    pub fn get_fn(&self) -> (r: String)
        ensures
            self.path@.len() == 0 ==> r@ == self.name@ + self.kind.spec_ext(),
            self.path@.len() > 0 && self.path@.last() == '/' ==> r@ == self.path@ + self.name@
                + self.kind.spec_ext(),
            self.path@.len() > 0 && self.path@.last() != '/' ==> r@ == self.path@ + seq!['/']
                + self.name@ + self.kind.spec_ext(),
    {
        let mut out = String::new();
        let plen = self.path.as_str().unicode_len();
        if plen > 0 {
            push_str(&mut out, self.path.as_str());
            if self.path.as_str().get_char(plen - 1) != '/' {
                crate::text::push_char(&mut out, '/');
            }
        }
        push_str(&mut out, self.name.as_str());
        push_str(&mut out, self.kind.get_ext());
        proof {
            if self.path@.len() == 0 {
                assert(out@ =~= self.name@ + self.kind.spec_ext());
            } else if self.path@.last() == '/' {
                assert(out@ =~= self.path@ + self.name@ + self.kind.spec_ext());
            } else {
                assert(out@ =~= self.path@ + seq!['/'] + self.name@ + self.kind.spec_ext());
            }
        }
        out
    }

    /// The same file at another stage.
    pub fn to_kind(&self, kind: ProcFileKind) -> (r: Self)
        ensures
            r.name@ == self.name@,
            r.path@ == self.path@,
            r.kind == kind,
    {
        ProcFile { name: self.name.clone(), path: self.path.clone(), kind }
    }
}

} // verus!
