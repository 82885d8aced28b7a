//! The file-listing subsystem: its one task walks a directory for Python
//! sources. The disk itself — whether a path exists, which files a pattern
//! finds — is read through the `glob` crate and the standard library
//! behind trusted wrappers; every decision around those reads is verified.

use super::wrap_outcome;
use crate::json::{elem_views, JVal, JsonVal};
use crate::message::{
    bytes_eq, clone_bytes, str_to_bytes, ResultMessage, TaskMessage, WebsocketSystem,
};
use vstd::prelude::*;
use vstd::string::*;

verus! {

/// The tasks of this subsystem.
#[derive(Clone, Copy, PartialEq, Eq, Structural, Debug)]
pub enum Task {
    GetFiles,
}

/// Failure of a file-listing task.
#[derive(Debug, PartialEq, Eq)]
pub enum PythonRepoError {
    /// The requested path does not exist.
    InvalidPath(Vec<u8>),
    /// Any other failure, with its description.
    UnexpectedError(Vec<u8>),
}

/// What one path byte shows as inside the quoted error text: the escaping
/// of debug formatting — quote, backslash and the named control bytes get
/// their short escape, other ASCII control bytes and the delete byte a
/// braced lowercase-hexadecimal escape. `dbg_escaped` also escapes the C1
/// control characters, which stand as two-byte sequences; everything else
/// stands as it is, where debug formatting would also escape the few
/// non-printable characters above the Latin-1 range.
pub open spec fn dbg_esc_of(b: u8) -> Seq<u8> {
    if b == 0x22 {
        seq![0x5Cu8, 0x22u8]
    } else if b == 0x5C {
        seq![0x5Cu8, 0x5Cu8]
    } else if b == 0x09 {
        seq![0x5Cu8, 0x74u8]
    } else if b == 0x0A {
        seq![0x5Cu8, 0x6Eu8]
    } else if b == 0x0D {
        seq![0x5Cu8, 0x72u8]
    } else if b < 0x20 || b == 0x7F {
        if b < 0x10 {
            seq![0x5Cu8, 0x75u8, 0x7Bu8, crate::json::hex_digit(b), 0x7Du8]
        } else {
            seq![
                0x5Cu8,
                0x75u8,
                0x7Bu8,
                crate::json::hex_digit(b / 16),
                crate::json::hex_digit(b % 16),
                0x7Du8,
            ]
        }
    } else {
        seq![b]
    }
}

/// A path as the quoted error text shows it.
pub open spec fn dbg_escaped(p: Seq<u8>) -> Seq<u8>
    decreases p.len(),
{
    if p.len() == 0 {
        Seq::empty()
    } else if p.len() >= 2 && p[0] == 0xC2 && 0x80 <= p[1] && p[1] <= 0x9F {
        // a C1 control character, encoded as two bytes
        seq![
            0x5Cu8,
            0x75u8,
            0x7Bu8,
            crate::json::hex_digit((p[1] / 16) as u8),
            crate::json::hex_digit((p[1] % 16) as u8),
            0x7Du8,
        ] + dbg_escaped(p.subrange(2, p.len() as int))
    } else {
        dbg_esc_of(p[0]) + dbg_escaped(p.subrange(1, p.len() as int))
    }
}

/// The description of a file-listing failure, as the client sees it: a
/// missing path is named in quotes, escaped as debug formatting escapes
/// string content.
pub open spec fn repo_error_text(e: PythonRepoError) -> Seq<u8> {
    match e {
        PythonRepoError::InvalidPath(p) => ("Invalid path: \"").spec_bytes() + dbg_escaped(p@) + (
        "\""
        ).spec_bytes(),
        PythonRepoError::UnexpectedError(m) => m@,
    }
}

/// Appends what the path bytes from `x` on show as.
fn push_dbg_escaped(p: &Vec<u8>, x: usize, out: &mut Vec<u8>)
    requires
        x <= p.len(),
    ensures
        final(out)@ == old(out)@ + dbg_escaped(p@.subrange(x as int, p@.len() as int)),
    decreases p@.len() - x,
{
    if x == p.len() {
        proof {
            assert(p@.subrange(x as int, p@.len() as int) =~= Seq::<u8>::empty());
            assert(old(out)@ + Seq::<u8>::empty() =~= old(out)@);
        }
    } else if x + 1 < p.len() && p[x] == 0xC2 && 0x80 <= p[x + 1] && p[x + 1] <= 0x9F {
        let v = p[x + 1];
        out.push(0x5C);
        out.push(0x75);
        out.push(0x7B);
        out.push(0x30 + v / 16);
        let lo = v % 16;
        out.push(
            if lo < 10 {
                0x30 + lo
            } else {
                0x61 + (lo - 10)
            },
        );
        out.push(0x7D);
        let ghost esc = seq![
            0x5Cu8,
            0x75u8,
            0x7Bu8,
            crate::json::hex_digit((v / 16) as u8),
            crate::json::hex_digit((v % 16) as u8),
            0x7Du8,
        ];
        proof {
            assert(out@ =~= old(out)@ + esc);
        }
        push_dbg_escaped(p, x + 2, out);
        proof {
            let tail = p@.subrange(x as int, p@.len() as int);
            assert(tail[0] == 0xC2 && tail[1] == v && tail.len() >= 2);
            assert(tail.subrange(2, tail.len() as int) =~= p@.subrange(
                x as int + 2,
                p@.len() as int,
            ));
            assert((old(out)@ + esc) + dbg_escaped(tail.subrange(2, tail.len() as int)) =~= old(
                out,
            )@ + (esc + dbg_escaped(tail.subrange(2, tail.len() as int))));
        }
    } else {
        let b = p[x];
        if b == 0x22 {
            out.push(0x5C);
            out.push(0x22);
        } else if b == 0x5C {
            out.push(0x5C);
            out.push(0x5C);
        } else if b == 0x09 {
            out.push(0x5C);
            out.push(0x74);
        } else if b == 0x0A {
            out.push(0x5C);
            out.push(0x6E);
        } else if b == 0x0D {
            out.push(0x5C);
            out.push(0x72);
        } else if b < 0x20 || b == 0x7F {
            out.push(0x5C);
            out.push(0x75);
            out.push(0x7B);
            if b < 0x10 {
                out.push(
                    if b < 10 {
                        0x30 + b
                    } else {
                        0x61 + (b - 10)
                    },
                );
            } else {
                let hi = b / 16;
                let lo = b % 16;
                out.push(
                    if hi < 10 {
                        0x30 + hi
                    } else {
                        0x61 + (hi - 10)
                    },
                );
                out.push(
                    if lo < 10 {
                        0x30 + lo
                    } else {
                        0x61 + (lo - 10)
                    },
                );
            }
            out.push(0x7D);
        } else {
            out.push(b);
        }
        proof {
            assert(out@ =~= old(out)@ + dbg_esc_of(b));
        }
        push_dbg_escaped(p, x + 1, out);
        proof {
            let tail = p@.subrange(x as int, p@.len() as int);
            assert(tail[0] == b);
            assert(tail.subrange(1, tail.len() as int) =~= p@.subrange(
                x as int + 1,
                p@.len() as int,
            ));
            assert((old(out)@ + dbg_esc_of(b)) + dbg_escaped(
                tail.subrange(1, tail.len() as int),
            ) =~= old(out)@ + (dbg_esc_of(tail[0]) + dbg_escaped(
                tail.subrange(1, tail.len() as int),
            )));
        }
    }
}

impl PythonRepoError {
    /// The description of this failure.
    pub fn message(&self) -> (r: Vec<u8>)
        ensures
            r@ == repo_error_text(*self),
    {
        match self {
            PythonRepoError::InvalidPath(p) => {
                let mut out = str_to_bytes("Invalid path: \"");
                push_dbg_escaped(p, 0, &mut out);
                let mut quote = str_to_bytes("\"");
                out.append(&mut quote);
                proof {
                    assert(p@.subrange(0, p@.len() as int) =~= p@);
                }
                out
            },
            PythonRepoError::UnexpectedError(m) => clone_bytes(m),
        }
    }
}

/// The wire name of the listing task.
pub open spec fn get_files_name() -> Seq<u8> {
    ("get_files").spec_bytes()
}

/// Parses the opaque task name of an envelope: exactly `get_files` names a
/// task of this subsystem.
pub fn parse_task(name: &Vec<u8>) -> (r: Option<Task>)
    ensures
        r == (if name@ == get_files_name() {
            Some(Task::GetFiles)
        } else {
            None::<Task>
        }),
{
    let gf = str_to_bytes("get_files");
    if bytes_eq(name, &gf) {
        Some(Task::GetFiles)
    } else {
        None
    }
}

/// Does a string of bytes end in `.py`?
pub open spec fn ends_with_py(s: Seq<u8>) -> bool {
    s.len() >= 3 && s[s.len() - 3] == 0x2E && s[s.len() - 2] == 0x70 && s[s.len() - 1] == 0x79
}

/// Does `s` begin with the bytes of `p`?
pub open spec fn begins_with(s: Seq<u8>, p: Seq<u8>) -> bool {
    p.len() <= s.len() && s.subrange(0, p.len() as int) == p
}

/// A path in plain form: valid UTF-8, free of glob metacharacters, of
/// doubled separators and of a leading current-directory component. The
/// walker splits its pattern on separators and joins the literal
/// components back unchanged, so such a path reappears verbatim at the
/// head of every result; the excluded forms are the ones it rewrites.
pub open spec fn plain_path(p: Seq<u8>) -> bool {
    &&& vstd::utf8::valid_utf8(p)
    &&& forall|i: int|
        0 <= i < p.len() ==> #[trigger] p[i] != 0x2A && p[i] != 0x3F && p[i] != 0x5B && p[i]
            != 0x5D
    &&& forall|i: int| 0 <= i && i + 1 < p.len() ==> !(#[trigger] p[i] == 0x2F && p[i + 1] == 0x2F)
    &&& p != seq![0x2Eu8]
    &&& !(p.len() >= 2 && p[0] == 0x2E && p[1] == 0x2F)
}

/// The path a payload requests: its string content, or the empty path
/// where the payload is no string.
pub open spec fn req_path(v: JVal) -> Seq<u8> {
    match v {
        JVal::Str(s) => s,
        _ => Seq::empty(),
    }
}

#[verifier::external_type_specification]
#[verifier::external_body]
pub struct ExPatternError(glob::PatternError);

/// Relies on std::path::Path::exists. Whether the path names anything is
/// the disk's to say, so nothing is promised of the answer.
#[verifier::external_body]
fn path_exists(path: &Vec<u8>) -> bool {
    std::path::Path::new(&String::from_utf8_lossy(path).into_owned()).exists()
}

/// Relies on glob::glob with the pattern `<path>/**/*.py`: every path the
/// iterator yields matched the pattern, whose last component ends in
/// `.py`, and the walker builds each result by joining the pattern's
/// literal leading components back together, so a path in plain form
/// stands verbatim at the head of every result. Unreadable entries are
/// skipped, as the iterator reports them item by item. Which files exist
/// depends on the disk, so no more is promised; an invalid pattern is the
/// crate's error, returned as it is.
#[verifier::external_body]
fn glob_py(path: &Vec<u8>) -> (r: Result<Vec<Vec<u8>>, glob::PatternError>)
    ensures
        (match r {
            Ok(names) => forall|i: int|
                0 <= i < names@.len() ==> ends_with_py(#[trigger] names@[i]@) && (plain_path(
                    path@,
                ) ==> begins_with(names@[i]@, path@)),
            Err(_) => true,
        }),
{
    let p = String::from_utf8_lossy(path).into_owned();
    match glob::glob(&format!("{}/**/*.py", p)) {
        Ok(paths) => Ok(
            paths.filter_map(Result::ok).map(|pb| pb.display().to_string().into_bytes()).collect(),
        ),
        Err(e) => Err(e),
    }
}

/// What the listing becomes for the client, given what the disk said: a
/// missing path is the client's error, naming the path; an invalid pattern
/// is unexpected; otherwise the found names become an array of strings,
/// exactly the listing's.
pub fn files_response(path: Vec<u8>, exists: bool, listing: Result<
    Vec<Vec<u8>>,
    glob::PatternError,
>) -> (r: Result<JsonVal, PythonRepoError>)
    ensures
        !exists ==> (r matches Err(PythonRepoError::InvalidPath(p)) && p@ == path@),
        exists ==> (match listing {
            Ok(names) => r matches Ok(v) && v@ == JVal::Arr(
                Seq::new(names@.len(), |i: int| JVal::Str(names@[i]@)),
            ),
            Err(_) => r matches Err(PythonRepoError::UnexpectedError(m)) && m@ == (
            "Failed to perform glob on path."
            ).spec_bytes(),
        }),
{
    if !exists {
        return Err(PythonRepoError::InvalidPath(path));
    }
    match listing {
        Ok(names) => {
            let ghost names_v = names@;
            let mut items: Vec<JsonVal> = Vec::new();
            let mut rest = names;
            proof {
                assert(rest@ =~= names_v.subrange(0, names_v.len() as int));
            }
            while rest.len() > 0
                invariant
                    items@.len() + rest@.len() == names_v.len(),
                    rest@ =~= names_v.subrange(items@.len() as int, names_v.len() as int),
                    forall|k: int|
                        0 <= k < items@.len() ==> #[trigger] items@[k]@ == JVal::Str(names_v[k]@),
                decreases rest@.len(),
            {
                let name = rest.remove(0);
                proof {
                    assert(rest@ =~= names_v.subrange(items@.len() as int + 1, names_v.len() as int));
                }
                items.push(JsonVal::Str(name));
            }
            let r = JsonVal::Arr(items);
            proof {
                crate::json::lemma_elem_views(items, 0);
                assert(elem_views(items, 0) =~= Seq::new(
                    names_v.len(),
                    |i: int| JVal::Str(names_v[i]@),
                ));
            }
            Ok(r)
        },
        Err(_) => Err(
            PythonRepoError::UnexpectedError(str_to_bytes("Failed to perform glob on path.")),
        ),
    }
}

/// The handler of the listing task: the path is the payload's string (an
/// empty path where the payload is none), a missing path is rejected, and
/// an existing one is walked for `.py` files. Success yields an array of
/// strings, each ending in `.py` and — for a path in plain form — lying
/// under the requested path; what the disk holds decides between the
/// outcomes.
pub fn get_files(payload: &JsonVal) -> (r: Result<JsonVal, PythonRepoError>)
    ensures
        (match r {
            Ok(v) => v@ matches JVal::Arr(items) && forall|i: int|
                0 <= i < items.len() ==> ((#[trigger] items[i]) matches JVal::Str(s)
                    && ends_with_py(s) && (plain_path(req_path(payload@)) ==> begins_with(
                    s,
                    req_path(payload@),
                ))),
            Err(PythonRepoError::InvalidPath(p)) => p@ == req_path(payload@),
            Err(PythonRepoError::UnexpectedError(m)) => m@ == (
            "Failed to perform glob on path."
            ).spec_bytes(),
        }),
{
    let path: Vec<u8> = match payload {
        JsonVal::Str(s) => clone_bytes(s),
        _ => Vec::new(),
    };
    let exists = path_exists(&path);
    let listing = if exists {
        glob_py(&path)
    } else {
        Ok(Vec::new())
    };
    files_response(path, exists, listing)
}

/// One worker step of this subsystem: parses the envelope's task name and
/// runs the handler. Every answer carries this subsystem's identifier; an
/// unregistered task name fails without stopping the worker.
pub fn python_repo_step(msg: &TaskMessage) -> (r: ResultMessage)
    ensures
        r.system == Some(WebsocketSystem::PythonRepo),
        msg.name@ != get_files_name() ==> r.success == false && r.payload@ == JVal::Str(
            ("Failed to deserialize message.").spec_bytes(),
        ),
        r.success ==> (r.payload@ matches JVal::Arr(items) && forall|i: int|
            0 <= i < items.len() ==> ((#[trigger] items[i]) matches JVal::Str(s) && ends_with_py(
                s,
            ) && (plain_path(req_path(msg.payload@)) ==> begins_with(
                s,
                req_path(msg.payload@),
            )))),
        (msg.name@ == get_files_name() && !r.success) ==> (r.payload@ == JVal::Str(
            ("Invalid path: \"").spec_bytes() + dbg_escaped(req_path(msg.payload@)) + (
            "\""
            ).spec_bytes(),
        ) || r.payload@ == JVal::Str(("Failed to perform glob on path.").spec_bytes())),
{
    match parse_task(&msg.name) {
        None => wrap_outcome(
            WebsocketSystem::PythonRepo,
            Err(str_to_bytes("Failed to deserialize message.")),
        ),
        Some(Task::GetFiles) => {
            match get_files(&msg.payload) {
                Ok(v) => wrap_outcome(WebsocketSystem::PythonRepo, Ok(v)),
                Err(e) => wrap_outcome(WebsocketSystem::PythonRepo, Err(e.message())),
            }
        },
    }
}

} // verus!
