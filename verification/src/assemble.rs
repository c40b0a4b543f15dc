//! Document assembly: flattening of file-inclusion directives, and the
//! path handling around it.
//!
//! A document is an ordered sequence of text lines. A line that holds
//! an inclusion directive `\input{<path>}` stands for the lines of the
//! named file, expanded depth-first and in order; the directive line
//! itself is dropped. The assembler works over an in-memory set of
//! files; the caller reads files from wherever they live, hands the
//! assembler their lines, and retries when the assembler reports a
//! file it has not been given yet. Whether a named file exists on disk
//! is likewise the caller's concern: the path functions here only
//! normalize and validate the path text.
use vstd::prelude::*;

use crate::numeric::{copy_bytes, format_u64, spec_udec};
use crate::textutil::{ascii_bytes, copy_range, find_sub_from, lit_bytes, spec_find_from,
    spec_trim, trim};

verus! {

/// An in-memory set of files: each name paired with the file's lines,
/// in the order the files were added. A name is looked up by exact
/// match, first hit wins.
pub struct FileSet {
    pub files: Vec<(Vec<u8>, Vec<Vec<u8>>)>,
}

/// The model of a sequence of lines.
pub open spec fn lines_view(lines: Seq<Vec<u8>>) -> Seq<Seq<u8>> {
    Seq::new(lines.len(), |i: int| lines[i]@)
}

/// The model of a file set: names paired with line sequences.
pub open spec fn fileset_view(fs: FileSet) -> Seq<(Seq<u8>, Seq<Seq<u8>>)> {
    Seq::new(fs.files@.len(), |i: int| (fs.files@[i].0@, lines_view(fs.files@[i].1@)))
}

/// The lines filed under `name`, if any.
pub open spec fn spec_fileset_get(fs: Seq<(Seq<u8>, Seq<Seq<u8>>)>, name: Seq<u8>) -> Option<
    Seq<Seq<u8>>,
>
    decreases fs.len(),
{
    if fs.len() == 0 {
        None
    } else if fs[0].0 == name {
        Some(fs[0].1)
    } else {
        spec_fileset_get(fs.subrange(1, fs.len() as int), name)
    }
}

impl FileSet {
    /// An empty file set.
    pub fn new() -> (r: FileSet)
        ensures
            fileset_view(r) == Seq::<(Seq<u8>, Seq<Seq<u8>>)>::empty(),
    {
        let r = FileSet { files: Vec::new() };
        proof {
            assert(fileset_view(r) =~= Seq::<(Seq<u8>, Seq<Seq<u8>>)>::empty());
        }
        r
    }

    /// Adds a file under `name`.
    pub fn add(&mut self, name: Vec<u8>, lines: Vec<Vec<u8>>)
        ensures
            fileset_view(*final(self)) == fileset_view(*old(self)).push(
                (name@, lines_view(lines@)),
            ),
    {
        let ghost pre = fileset_view(*self);
        let ghost nv = name@;
        let ghost lv = lines_view(lines@);
        self.files.push((name, lines));
        proof {
            assert(fileset_view(*self) =~= pre.push((nv, lv)));
        }
    }

    /// Looks a file up by exact name.
    pub fn get(&self, name: &Vec<u8>) -> (r: Option<&Vec<Vec<u8>>>)
        ensures
            match r {
                Some(lines) => spec_fileset_get(fileset_view(*self), name@) == Some(
                    lines_view(lines@),
                ),
                None => spec_fileset_get(fileset_view(*self), name@) is None,
            },
    {
        let ghost fsv = fileset_view(*self);
        proof {
            assert(fsv.subrange(0, fsv.len() as int) =~= fsv);
        }
        let mut i: usize = 0;
        while i < self.files.len()
            invariant
                i <= self.files@.len(),
                fsv == fileset_view(*self),
                fsv.len() == self.files@.len(),
                forall|k: int| 0 <= k < self.files@.len() ==> fsv[k] == (
                    #[trigger] self.files@[k].0@,
                    lines_view(self.files@[k].1@),
                ),
                spec_fileset_get(fsv, name@) == spec_fileset_get(
                    fsv.subrange(i as int, fsv.len() as int),
                    name@,
                ),
            decreases self.files@.len() - i,
        {
            let ghost rest = fsv.subrange(i as int, fsv.len() as int);
            proof {
                assert(rest[0] == fsv[i as int]);
                assert(rest.subrange(1, rest.len() as int) =~= fsv.subrange(
                    (i + 1) as int,
                    fsv.len() as int,
                ));
            }
            if crate::textutil::bytes_eq(&self.files[i].0, name) {
                return Some(&self.files[i].1);
            }
            i += 1;
        }
        proof {
            assert(fsv.subrange(i as int, fsv.len() as int) =~= Seq::<
                (Seq<u8>, Seq<Seq<u8>>),
            >::empty());
        }
        None
    }
}

/// The last position of byte `b` in `s`.
pub open spec fn spec_rfind(s: Seq<u8>, b: u8) -> Option<int>
    decreases s.len(),
{
    if s.len() == 0 {
        None
    } else if s.last() == b {
        Some(s.len() - 1)
    } else {
        spec_rfind(s.drop_last(), b)
    }
}

/// A found last position is in range and holds the byte.
pub proof fn lemma_rfind_bounds(s: Seq<u8>, b: u8)
    ensures
        spec_rfind(s, b) matches Some(k) ==> 0 <= k < s.len() && s[k] == b,
    decreases s.len(),
{
    if s.len() > 0 && s.last() != b {
        lemma_rfind_bounds(s.drop_last(), b);
        match spec_rfind(s.drop_last(), b) {
            Some(k) => {
                assert(s.drop_last()[k] == s[k]);
            },
            None => {},
        }
    }
}

/// Finds the last position of byte `b` in `s`.
pub fn rfind_byte(s: &Vec<u8>, b: u8) -> (r: Option<usize>)
    ensures
        match r {
            Some(i) => i < s@.len() && spec_rfind(s@, b) == Some(i as int),
            None => spec_rfind(s@, b) is None,
        },
{
    let mut i: usize = s.len();
    proof {
        assert(s@.subrange(0, s@.len() as int) =~= s@);
    }
    while i > 0
        invariant
            i <= s@.len(),
            spec_rfind(s@, b) == spec_rfind(s@.subrange(0, i as int), b),
        decreases i,
    {
        let ghost pre = s@.subrange(0, i as int);
        proof {
            assert(pre.last() == s@[i - 1]);
            assert(pre.drop_last() =~= s@.subrange(0, (i - 1) as int));
        }
        if s[i - 1] == b {
            return Some(i - 1);
        }
        i -= 1;
    }
    proof {
        assert(s@.subrange(0, 0) =~= Seq::<u8>::empty());
    }
    None
}

/// The final path component: everything after the last slash, or the
/// whole path when it has none.
pub open spec fn spec_file_name(p: Seq<u8>) -> Seq<u8> {
    match spec_rfind(p, 47) {
        Some(k) => p.subrange(k + 1, p.len() as int),
        None => p,
    }
}

/// The directory part: everything before the last slash, or empty.
pub open spec fn spec_dir_name(p: Seq<u8>) -> Seq<u8> {
    match spec_rfind(p, 47) {
        Some(k) => p.subrange(0, k),
        None => Seq::<u8>::empty(),
    }
}

/// The extension of a path: the part of its file name after the last
/// dot, provided that dot is neither the name's first byte nor absent.
pub open spec fn spec_extension(p: Seq<u8>) -> Option<Seq<u8>> {
    let name = spec_file_name(p);
    match spec_rfind(name, 46) {
        Some(k) => if k > 0 {
            Some(name.subrange(k + 1, name.len() as int))
        } else {
            None
        },
        None => None,
    }
}

/// The final path component of `p`.
pub fn file_name(p: &Vec<u8>) -> (r: Vec<u8>)
    ensures
        r@ == spec_file_name(p@),
{
    let n = p.len();
    match rfind_byte(p, 47) {
        Some(k) => copy_range(p, k + 1, n),
        None => copy_bytes(p),
    }
}

/// The directory part of `p`.
pub fn dir_name(p: &Vec<u8>) -> (r: Vec<u8>)
    ensures
        r@ == spec_dir_name(p@),
{
    match rfind_byte(p, 47) {
        Some(k) => copy_range(p, 0, k),
        None => Vec::new(),
    }
}

/// The extension of `p`, if its file name has one.
pub fn extension(p: &Vec<u8>) -> (r: Option<Vec<u8>>)
    ensures
        match r {
            Some(e) => spec_extension(p@) == Some(e@),
            None => spec_extension(p@) is None,
        },
{
    let name = file_name(p);
    let n = name.len();
    match rfind_byte(&name, 46) {
        Some(k) => if k > 0 {
            Some(copy_range(&name, k + 1, n))
        } else {
            None
        },
        None => None,
    }
}

/// `p` with a dot and `ext` appended.
pub open spec fn spec_with_extension(p: Seq<u8>, ext: Seq<u8>) -> Seq<u8> {
    p + seq![46u8] + ext
}

/// The file name with its extension replaced (or, without one, added).
pub open spec fn spec_set_extension(name: Seq<u8>, ext: Seq<u8>) -> Seq<u8> {
    match spec_extension(name) {
        Some(_) => name.subrange(0, name.len() - spec_extension(name).unwrap().len() as int)
            + ext,
        None => spec_with_extension(name, ext),
    }
}

/// Checks and completes a file path against an expected extension: a
/// path carrying the extension (or given without one, which is then
/// appended) passes; any other extension is an error. Whether a file
/// of that name exists is checked by the caller at the point of the
/// actual read.
pub fn parse_filepath(filepath_str: &Vec<u8>, expected_extension: Option<&Vec<u8>>) -> (r: Result<
    Vec<u8>,
    Vec<u8>,
>)
    ensures
        match r {
            Ok(p) => match expected_extension {
                Some(ext) => match spec_extension(filepath_str@) {
                    Some(e) => e == ext@ && p@ == filepath_str@,
                    None => p@ == spec_with_extension(filepath_str@, ext@),
                },
                None => p@ == filepath_str@,
            },
            Err(m) => expected_extension matches Some(ext)
                && spec_extension(filepath_str@) matches Some(e) && e != ext@ && m@
                == msg_bad_extension(e, ext@),
        },
{
    match expected_extension {
        None => Ok(copy_bytes(filepath_str)),
        Some(ext) => {
            match extension(filepath_str) {
                Some(e) => {
                    if crate::textutil::bytes_eq(&e, ext) {
                        Ok(copy_bytes(filepath_str))
                    } else {
                        proof {
                            reveal_strlit("Incorrect extension: \"");
                            reveal_strlit("\". Expected: ");
                        }
                        let mut m = lit_bytes("Incorrect extension: \"");
                        push_bytes(&mut m, &e);
                        let mid = lit_bytes("\". Expected: ");
                        push_bytes(&mut m, &mid);
                        push_bytes(&mut m, ext);
                        Err(m)
                    }
                },
                None => {
                    let mut p = copy_bytes(filepath_str);
                    p.push(46);
                    push_bytes(&mut p, ext);
                    proof {
                        assert(p@ =~= spec_with_extension(filepath_str@, ext@));
                    }
                    Ok(p)
                },
            }
        },
    }
}

/// The error text for a path with the wrong extension.
pub open spec fn msg_bad_extension(found: Seq<u8>, expected: Seq<u8>) -> Seq<u8> {
    ascii_bytes("Incorrect extension: \""@) + found + ascii_bytes("\". Expected: "@) + expected
}

/// Appends `mid` to `out`.
fn push_bytes(out: &mut Vec<u8>, mid: &Vec<u8>)
    ensures
        final(out)@ == old(out)@ + mid@,
{
    out.extend_from_slice(mid.as_slice());
    proof {
        crate::numeric::byte_copy_exact(out@);
        assert(out@ =~= old(out)@ + mid@);
    }
}

/// How the assembler can fail.
#[derive(Debug, PartialEq, Eq)]
pub enum MergeError {
    /// A named file is not in the set; the two names are the path as
    /// written (extension completed) and the same path taken relative
    /// to the including file's directory.
    Missing(Vec<u8>, Vec<u8>),
    /// Assembly failed for good, with a message.
    Failed(Vec<u8>),
}

/// The model of an assembly failure.
pub enum MergeErr {
    Missing(Seq<u8>, Seq<u8>),
    Failed(Seq<u8>),
}

impl View for MergeError {
    type V = MergeErr;

    open spec fn view(&self) -> MergeErr {
        match self {
            MergeError::Missing(a, b) => MergeErr::Missing(a@, b@),
            MergeError::Failed(m) => MergeErr::Failed(m@),
        }
    }
}

/// The inclusion directive's opening text.
pub open spec fn input_directive() -> Seq<u8> {
    ascii_bytes("\\input{"@)
}

/// The error text for a root file missing from the set.
pub open spec fn msg_file_not_found(p: Seq<u8>) -> Seq<u8> {
    ascii_bytes("File not found: "@) + p
}

/// The error text for a directive without its closing brace.
pub open spec fn msg_unclosed_at(i: int) -> Seq<u8> {
    ascii_bytes("Unclosed delimiter at line "@) + spec_udec(i as nat)
}

/// The error text when inclusion nests deeper than the file count,
/// which only a circular inclusion graph can do.
pub open spec fn msg_depth(p: Seq<u8>) -> Seq<u8> {
    ascii_bytes("Inclusion depth limit reached, the files may include each other: "@) + p
}

/// Joining a path to a directory: the directory, a slash, and the
/// path; an empty directory leaves the path alone.
pub open spec fn spec_join_path(dir: Seq<u8>, p: Seq<u8>) -> Seq<u8> {
    if dir.len() == 0 {
        p
    } else {
        dir + seq![47u8] + p
    }
}

/// The flattening of one file of the set: each plain line stands as
/// itself, and each directive line stands for the flattening of the
/// file it names, resolved first as written and then relative to the
/// including file's directory.
pub open spec fn spec_merge_file(
    fs: Seq<(Seq<u8>, Seq<Seq<u8>>)>,
    path: Seq<u8>,
    fuel: nat,
) -> Result<Seq<Seq<u8>>, MergeErr>
    decreases fuel, 1int, 0int,
{
    match spec_fileset_get(fs, path) {
        None => Err(MergeErr::Failed(msg_file_not_found(path))),
        Some(lines) => spec_merge_lines(fs, lines, 0, spec_dir_name(path), fuel),
    }
}

/// The flattening of the lines from position `idx` on.
pub open spec fn spec_merge_lines(
    fs: Seq<(Seq<u8>, Seq<Seq<u8>>)>,
    lines: Seq<Seq<u8>>,
    idx: int,
    dir: Seq<u8>,
    fuel: nat,
) -> Result<Seq<Seq<u8>>, MergeErr>
    decreases fuel, 0int, lines.len() - idx,
{
    if idx < 0 || idx >= lines.len() {
        Ok(Seq::<Seq<u8>>::empty())
    } else {
        let line = lines[idx];
        match spec_find_from(line, input_directive(), 0) {
            None => match spec_merge_lines(fs, lines, idx + 1, dir, fuel) {
                Err(e) => Err(e),
                Ok(rest) => Ok(seq![line] + rest),
            },
            Some(a) => {
                let after = line.subrange(a + input_directive().len(), line.len() as int);
                match spec_find_from(after, seq![125u8], 0) {
                    None => Err(MergeErr::Failed(msg_unclosed_at(idx))),
                    Some(b) => {
                        let raw = after.subrange(0, b);
                        let extended = if spec_extension(raw) is Some {
                            raw
                        } else {
                            spec_with_extension(raw, ascii_bytes("tex"@))
                        };
                        let joined = spec_join_path(dir, extended);
                        let name = if spec_fileset_get(fs, extended) is Some {
                            extended
                        } else {
                            joined
                        };
                        if spec_fileset_get(fs, name) is None {
                            Err(MergeErr::Missing(extended, joined))
                        } else if fuel == 0 {
                            Err(MergeErr::Failed(msg_depth(extended)))
                        } else {
                            match spec_merge_file(fs, name, (fuel - 1) as nat) {
                                Err(e) => Err(e),
                                Ok(sub) => match spec_merge_lines(
                                    fs,
                                    lines,
                                    idx + 1,
                                    dir,
                                    fuel,
                                ) {
                                    Err(e) => Err(e),
                                    Ok(rest) => Ok(sub + rest),
                                },
                            }
                        }
                    },
                }
            },
        }
    }
}

/// The flattening of the whole document from its root file: the fuel
/// covers any acyclic inclusion graph, since no acyclic chain can nest
/// deeper than the count of files in the set.
pub open spec fn spec_merge_tex(fs: Seq<(Seq<u8>, Seq<Seq<u8>>)>, path: Seq<u8>) -> Result<
    Seq<Seq<u8>>,
    MergeErr,
> {
    spec_merge_file(fs, path, fs.len() + 1)
}

/// Recursively flattens all inclusion directives of the root file into
/// one ordered line sequence. Line order and count are fixed by the
/// inclusion graph alone: every plain line of every reached file
/// appears, in depth-first order, exactly where its file was included.
pub fn merge_tex(files: &FileSet, filepath: &Vec<u8>) -> (r: Result<Vec<Vec<u8>>, MergeError>)
    requires
        files.files@.len() < usize::MAX,
    ensures
        match r {
            Ok(lines) => spec_merge_tex(fileset_view(*files), filepath@) == Ok::<_, MergeErr>(
                lines_view(lines@),
            ),
            Err(e) => spec_merge_tex(fileset_view(*files), filepath@) == Err::<Seq<Seq<u8>>, _>(
                e@,
            ),
        },
{
    let fuel = files.files.len() + 1;
    proof {
        assert(fileset_view(*files).len() == files.files@.len());
    }
    merge_file(files, filepath, fuel)
}

/// One file's worth of [`merge_tex`].
fn merge_file(files: &FileSet, path: &Vec<u8>, fuel: usize) -> (r: Result<
    Vec<Vec<u8>>,
    MergeError,
>)
    ensures
        match r {
            Ok(lines) => spec_merge_file(fileset_view(*files), path@, fuel as nat) == Ok::<
                _,
                MergeErr,
            >(lines_view(lines@)),
            Err(e) => spec_merge_file(fileset_view(*files), path@, fuel as nat) == Err::<
                Seq<Seq<u8>>,
                _,
            >(e@),
        },
    decreases fuel, 0int,
{
    let ghost fsv = fileset_view(*files);
    let file_lines = match files.get(path) {
        Some(l) => l,
        None => {
            proof {
                reveal_strlit("File not found: ");
            }
            let mut m = lit_bytes("File not found: ");
            push_bytes(&mut m, path);
            return Err(MergeError::Failed(m));
        },
    };
    let dir = dir_name(path);
    let ghost lv = lines_view(file_lines@);
    let directive = directive_bytes();
    let mut close: Vec<u8> = Vec::new();
    close.push(125);
    proof {
        assert(close@ =~= seq![125u8]);
    }
    let tex = tex_bytes();
    let mut out: Vec<Vec<u8>> = Vec::new();
    let mut idx: usize = 0;
    proof {
        assert(lines_view(out@) =~= Seq::<Seq<u8>>::empty());
    }
    while idx < file_lines.len()
        invariant
            idx <= file_lines@.len(),
            fsv == fileset_view(*files),
            lv == lines_view(file_lines@),
            lv.len() == file_lines@.len(),
            forall|k: int| 0 <= k < file_lines@.len() ==> lv[k] == #[trigger] file_lines@[k]@,
            dir@ == spec_dir_name(path@),
            directive@ == input_directive(),
            close@ == seq![125u8],
            tex@ == ascii_bytes("tex"@),
            spec_merge_file(fsv, path@, fuel as nat) == prepend_lines(
                lines_view(out@),
                spec_merge_lines(fsv, lv, idx as int, dir@, fuel as nat),
            ),
        decreases file_lines@.len() - idx,
    {
        let ghost outpre = lines_view(out@);
        let line = &file_lines[idx];
        proof {
            assert(line@ == lv[idx as int]);
        }
        match find_sub_from(line, &directive, 0) {
            None => {
                out.push(copy_bytes(line));
                proof {
                    assert(lines_view(out@) =~= outpre.push(lv[idx as int]));
                    assert(lines_view(out@) =~= outpre + seq![lv[idx as int]]);
                    match spec_merge_lines(fsv, lv, idx + 1, dir@, fuel as nat) {
                        Ok(rest) => {
                            assert(outpre + (seq![lv[idx as int]] + rest) =~= (outpre + seq![
                                lv[idx as int],
                            ]) + rest);
                        },
                        Err(_) => {},
                    }
                }
            },
            Some(a) => {
                proof {
                    crate::textutil::lemma_find_is_match(line@, directive@, 0, a as int);
                }
                let n = line.len();
                let after = copy_range(line, a + directive.len(), n);
                match find_sub_from(&after, &close, 0) {
                    None => {
                        proof {
                            reveal_strlit("Unclosed delimiter at line ");
                        }
                        let mut m = lit_bytes("Unclosed delimiter at line ");
                        let num = format_u64(idx as u64);
                        push_bytes(&mut m, &num);
                        return Err(MergeError::Failed(m));
                    },
                    Some(b) => {
                        proof {
                            crate::textutil::lemma_find_is_match(after@, close@, 0, b as int);
                        }
                        let raw = copy_range(&after, 0, b);
                        let extended = match extension(&raw) {
                            Some(_) => raw,
                            None => {
                                let mut e = raw;
                                e.push(46);
                                push_bytes(&mut e, &tex);
                                proof {
                                    assert(e@ =~= spec_with_extension(
                                        after@.subrange(0, b as int),
                                        ascii_bytes("tex"@),
                                    ));
                                }
                                e
                            },
                        };
                        let joined: Vec<u8> = if dir.len() == 0 {
                            copy_bytes(&extended)
                        } else {
                            let mut j = copy_bytes(&dir);
                            j.push(47);
                            push_bytes(&mut j, &extended);
                            proof {
                                assert(j@ =~= spec_join_path(dir@, extended@));
                            }
                            j
                        };
                        let name: &Vec<u8> = if files.get(&extended).is_some() {
                            &extended
                        } else {
                            &joined
                        };
                        if files.get(name).is_none() {
                            return Err(MergeError::Missing(extended, joined));
                        }
                        if fuel == 0 {
                            proof {
                                reveal_strlit(
                                    "Inclusion depth limit reached, the files may include each other: ",
                                );
                            }
                            let mut m = lit_bytes(
                                "Inclusion depth limit reached, the files may include each other: ",
                            );
                            push_bytes(&mut m, &extended);
                            return Err(MergeError::Failed(m));
                        }
                        match merge_file(files, name, fuel - 1) {
                            Err(e) => {
                                return Err(e);
                            },
                            Ok(sub) => {
                                let ghost subv = lines_view(sub@);
                                let mut sub = sub;
                                let mut si: usize = 0;
                                while si < sub.len()
                                    invariant
                                        si <= sub@.len(),
                                        subv == lines_view(sub@),
                                        subv.len() == sub@.len(),
                                        forall|k: int| 0 <= k < sub@.len() ==> subv[k]
                                            == #[trigger] sub@[k]@,
                                        lines_view(out@) =~= outpre + subv.subrange(
                                            0,
                                            si as int,
                                        ),
                                    decreases sub@.len() - si,
                                {
                                    out.push(copy_bytes(&sub[si]));
                                    proof {
                                        assert(lines_view(out@) =~= (outpre + subv.subrange(
                                            0,
                                            si as int,
                                        )).push(subv[si as int]));
                                        assert((outpre + subv.subrange(0, si as int)).push(
                                            subv[si as int],
                                        ) =~= outpre + subv.subrange(0, (si + 1) as int));
                                    }
                                    si += 1;
                                }
                                proof {
                                    assert(subv.subrange(0, subv.len() as int) =~= subv);
                                    assert(lines_view(out@) =~= outpre + subv);
                                    match spec_merge_lines(fsv, lv, idx + 1, dir@, fuel as nat) {
                                        Ok(rest) => {
                                            assert(outpre + (subv + rest) =~= (outpre + subv)
                                                + rest);
                                        },
                                        Err(_) => {},
                                    }
                                }
                            },
                        }
                    },
                }
            },
        }
        idx += 1;
    }
    proof {
        assert(lv.subrange(idx as int, lv.len() as int) =~= Seq::<Seq<u8>>::empty());
    }
    Ok(out)
}

/// Prefixes `pre` onto a successful flattening.
pub open spec fn prepend_lines(pre: Seq<Seq<u8>>, r: Result<Seq<Seq<u8>>, MergeErr>) -> Result<
    Seq<Seq<u8>>,
    MergeErr,
> {
    match r {
        Ok(s) => Ok(pre + s),
        Err(e) => Err(e),
    }
}

/// The error text when piped input is asked for but none was given.
pub open spec fn msg_no_piped() -> Seq<u8> {
    ascii_bytes("No piped input available"@)
}

/// The file name with its extension replaced, or added when it has
/// none.
pub fn set_extension(name: &Vec<u8>, ext: &Vec<u8>) -> (r: Vec<u8>)
    ensures
        r@ == spec_set_extension(name@, ext@),
{
    let n = name.len();
    match extension(name) {
        Some(e) => {
            proof {
                let fname = spec_file_name(name@);
                lemma_rfind_bounds(name@, 47);
                lemma_rfind_bounds(fname, 46);
                assert(fname.len() <= name@.len());
                assert(e@.len() + 2 <= fname.len());
            }
            let mut r = copy_range(name, 0, n - e.len());
            push_bytes(&mut r, ext);
            proof {
                assert(spec_extension(name@).unwrap().len() == e@.len());
            }
            r
        },
        None => {
            let mut r = copy_bytes(name);
            r.push(46);
            push_bytes(&mut r, ext);
            proof {
                assert(r@ =~= spec_with_extension(name@, ext@));
            }
            r
        },
    }
}

/// What the line source and the output path are for a given input: a
/// lone dash stands for the already-piped lines under the generic name
/// `main.tex`; anything else names the root file, which must carry the
/// document extension and is flattened from the file set. The output
/// path is the given one or, failing that, the root's file name with
/// its extension turned into `pdf`.
pub open spec fn spec_lines_and_output(
    input: Seq<u8>,
    output: Option<Seq<u8>>,
    fs: Seq<(Seq<u8>, Seq<Seq<u8>>)>,
    piped: Option<Seq<Seq<u8>>>,
) -> Result<(Seq<Seq<u8>>, Seq<u8>), MergeErr> {
    if spec_trim(input) == seq![45u8] {
        match piped {
            None => Err(MergeErr::Failed(msg_no_piped())),
            Some(lines) => Ok(
                (
                    lines,
                    spec_out_path(output, ascii_bytes("main.tex"@)),
                ),
            ),
        }
    } else {
        let fp = if spec_extension(input) is Some {
            input
        } else {
            spec_with_extension(input, ascii_bytes("tex"@))
        };
        match spec_extension(input) {
            Some(e) if e != ascii_bytes("tex"@) => Err(
                MergeErr::Failed(msg_bad_extension(e, ascii_bytes("tex"@))),
            ),
            _ => match spec_merge_tex(fs, fp) {
                Err(e) => Err(e),
                Ok(lines) => Ok((lines, spec_out_path(output, fp))),
            },
        }
    }
}

/// The output path: as given, or the root's file name with a `pdf`
/// extension.
pub open spec fn spec_out_path(output: Option<Seq<u8>>, fp: Seq<u8>) -> Seq<u8> {
    match output {
        Some(x) => x,
        None => spec_set_extension(spec_file_name(fp), ascii_bytes("pdf"@)),
    }
}

/// Resolves the document lines and a fitting output path: from the
/// piped lines when the input is a lone dash, else by flattening the
/// named root file out of the file set.
pub fn get_lines_and_output_path(
    input_str: &Vec<u8>,
    output_path: Option<&Vec<u8>>,
    files: &FileSet,
    piped: Option<Vec<Vec<u8>>>,
) -> (r: Result<(Vec<Vec<u8>>, Vec<u8>), MergeError>)
    requires
        files.files@.len() < usize::MAX,
    ensures
        ({
            let s = spec_lines_and_output(
                input_str@,
                match output_path {
                    Some(x) => Some(x@),
                    None => None,
                },
                fileset_view(*files),
                match piped {
                    Some(ref l) => Some(lines_view(l@)),
                    None => None,
                },
            );
            match r {
                Ok(p) => s matches Ok(q) && lines_view(p.0@) == q.0 && p.1@ == q.1,
                Err(e) => s matches Err(m) && e@ == m,
            }
        }),
{
    proof {
        reveal_strlit("-");
        reveal_strlit("main.tex");
        reveal_strlit("tex");
        reveal_strlit("pdf");
    }
    let dash = lit_bytes("-");
    let trimmed = trim(input_str);
    proof {
        assert(dash@ =~= seq![45u8]);
    }
    if crate::textutil::bytes_eq(&trimmed, &dash) {
        match piped {
            None => {
                proof {
                    reveal_strlit("No piped input available");
                }
                Err(MergeError::Failed(lit_bytes("No piped input available")))
            },
            Some(lines) => {
                let generic = lit_bytes("main.tex");
                let out = match output_path {
                    Some(x) => copy_bytes(x),
                    None => set_extension(&file_name(&generic), &lit_bytes("pdf")),
                };
                Ok((lines, out))
            },
        }
    } else {
        let tex = tex_bytes();
        let fp = match parse_filepath(input_str, Some(&tex)) {
            Ok(fp) => fp,
            Err(m) => {
                return Err(MergeError::Failed(m));
            },
        };
        let lines = match merge_tex(files, &fp) {
            Ok(l) => l,
            Err(e) => {
                return Err(e);
            },
        };
        let out = match output_path {
            Some(x) => copy_bytes(x),
            None => set_extension(&file_name(&fp), &lit_bytes("pdf")),
        };
        Ok((lines, out))
    }
}

/// The directive's opening text as bytes.
fn directive_bytes() -> (r: Vec<u8>)
    ensures
        r@ == input_directive(),
{
    proof {
        reveal_strlit("\\input{");
    }
    lit_bytes("\\input{")
}

/// The standard document extension as bytes.
fn tex_bytes() -> (r: Vec<u8>)
    ensures
        r@ == ascii_bytes("tex"@),
{
    proof {
        reveal_strlit("tex");
    }
    lit_bytes("tex")
}

} // verus!
