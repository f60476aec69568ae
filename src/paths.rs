use vstd::prelude::*;
use vstd::string::StringSliceAdditionalSpecFns;
use vstd::utf8::*;

verus! {

/// The two photo formats a unit can hold, one slot each.
#[derive(Clone, Copy, Debug, PartialEq, Eq, Structural)]
pub enum Format {
    /// Lossy-compressed pictures (`.jpg`).
    Lossy,
    /// Camera raw pictures (`.nef`).
    Raw,
}

/// Why a path cannot be registered.
#[derive(Clone, Copy, Debug, PartialEq, Eq, Structural)]
pub enum RegisterError {
    /// The path has no file name to take a stem from.
    InvalidPath,
    /// The extension is missing or is neither of the two supported ones.
    UnsupportedFormat,
}

/// `/` and `\` both end a directory component, so that paths written in
/// either convention split the same way on every platform.
pub open spec fn is_separator(b: u8) -> bool {
    b == 47u8 || b == 92u8
}

/// Index just past the last separator of `p`, or 0 when there is none.
pub open spec fn name_start(p: Seq<u8>) -> int
    decreases p.len(),
{
    if p.len() == 0 {
        0
    } else if is_separator(p.last()) {
        p.len() as int
    } else {
        name_start(p.drop_last())
    }
}

/// The last component of `p`: everything after its last separator.
pub open spec fn file_name(p: Seq<u8>) -> Seq<u8> {
    p.subrange(name_start(p), p.len() as int)
}

/// Index of the last `.` in `n`, or -1 when there is none.
pub open spec fn last_dot(n: Seq<u8>) -> int
    decreases n.len(),
{
    if n.len() == 0 {
        -1
    } else if n.last() == 46u8 {
        n.len() - 1
    } else {
        last_dot(n.drop_last())
    }
}

/// `.` and `..` name directories, not files.
pub open spec fn is_dot_name(n: Seq<u8>) -> bool {
    (n.len() == 1 && n[0] == 46u8) || (n.len() == 2 && n[0] == 46u8 && n[1] == 46u8)
}

/// A path has a stem when its last component is a non-empty file name.
pub open spec fn has_stem(p: Seq<u8>) -> bool {
    file_name(p).len() > 0 && !is_dot_name(file_name(p))
}

/// The file name up to its last dot; a leading dot does not start an extension.
pub open spec fn stem_of(p: Seq<u8>) -> Seq<u8> {
    let n = file_name(p);
    if last_dot(n) > 0 {
        n.subrange(0, last_dot(n))
    } else {
        n
    }
}

/// What follows the last dot of the file name, if that dot is not its first byte.
pub open spec fn extension_of(p: Seq<u8>) -> Option<Seq<u8>> {
    let n = file_name(p);
    if last_dot(n) > 0 {
        Some(n.subrange(last_dot(n) + 1, n.len() as int))
    } else {
        None
    }
}

pub open spec fn ascii_lower(b: u8) -> u8 {
    if 65u8 <= b <= 90u8 {
        (b + 32) as u8
    } else {
        b
    }
}

/// `e` spells the lower-case word `w`, ignoring ASCII case.
pub open spec fn equals_ignoring_case(e: Seq<u8>, w: Seq<u8>) -> bool {
    e.len() == w.len() && forall|i: int| 0 <= i < e.len() ==> ascii_lower(#[trigger] e[i]) == w[i]
}

pub open spec fn lossy_extension() -> Seq<u8> {
    seq![106u8, 112u8, 103u8]
}

pub open spec fn raw_extension() -> Seq<u8> {
    seq![110u8, 101u8, 102u8]
}

/// The slot a file goes to, decided by its extension alone.
pub open spec fn format_of(p: Seq<u8>) -> Option<Format> {
    match extension_of(p) {
        Some(e) => if equals_ignoring_case(e, lossy_extension()) {
            Some(Format::Lossy)
        } else if equals_ignoring_case(e, raw_extension()) {
            Some(Format::Raw)
        } else {
            None
        },
        None => None,
    }
}

/// The outcome of registering `p`: its stem and slot, or why it is refused.
pub open spec fn classify(p: Seq<u8>) -> Result<(Seq<u8>, Format), RegisterError> {
    if !has_stem(p) {
        Err(RegisterError::InvalidPath)
    } else if format_of(p) is None {
        Err(RegisterError::UnsupportedFormat)
    } else {
        Ok((stem_of(p), format_of(p)->0))
    }
}

fn lower_byte(b: u8) -> (r: u8)
    ensures
        r == ascii_lower(b),
{
    if 65u8 <= b && b <= 90u8 {
        b + 32
    } else {
        b
    }
}

/// Whether the bytes after `dot` spell the three-letter word `w0 w1 w2`, ignoring case.
fn extension_is(b: &[u8], dot: usize, w0: u8, w1: u8, w2: u8) -> (r: bool)
    requires
        dot < b@.len(),
    ensures
        r == equals_ignoring_case(b@.subrange(dot + 1, b@.len() as int), seq![w0, w1, w2]),
{
    let ghost e = b@.subrange(dot + 1, b@.len() as int);
    if b.len() - dot - 1 != 3 {
        return false;
    }
    let r = lower_byte(b[dot + 1]) == w0 && lower_byte(b[dot + 2]) == w1 && lower_byte(b[dot + 3]) == w2;
    proof {
        assert(e[0] == b@[dot + 1] && e[1] == b@[dot + 2] && e[2] == b@[dot + 3]);
        if !r {
            let w = seq![w0, w1, w2];
            if ascii_lower(e[0]) != w[0] {
            } else if ascii_lower(e[1]) != w[1] {
            } else {
                assert(ascii_lower(e[2]) != w[2]);
            }
        }
    }
    r
}

/// The bytes of `path` from `from` up to `to`, where the byte before `from`
/// (if any) and the byte at `to` are ASCII.
fn stem_slice(path: &str, from: usize, to: usize) -> (r: &str)
    requires
        from < to < path.spec_bytes().len(),
        from > 0 ==> path.spec_bytes()[from - 1] < 128,
        path.spec_bytes()[to as int] < 128,
    ensures
        r.spec_bytes() == path.spec_bytes().subrange(from as int, to as int),
{
    let ghost p = path.spec_bytes();
    let name_str = if from == 0 {
        path
    } else {
        proof {
            encode_utf8_valid_utf8(path@);
            is_char_boundary_iff_not_is_continuation_byte(p, from - 1);
        }
        let (_, rest) = path.split_at(from - 1);
        proof {
            encode_utf8_valid_utf8(rest@);
            assert(rest.spec_bytes()[0] == p[from - 1]);
            assert(is_char_boundary(rest.spec_bytes(), 1)) by {
                reveal_with_fuel(is_char_boundary, 2);
            }
        }
        let (_, nm) = rest.split_at(1);
        nm
    };
    let ghost nb = name_str.spec_bytes();
    assert(nb =~= p.subrange(from as int, p.len() as int));
    proof {
        encode_utf8_valid_utf8(name_str@);
        assert(nb[to - from] == p[to as int]);
        is_char_boundary_iff_not_is_continuation_byte(nb, to - from);
    }
    let (stem, _) = name_str.split_at(to - from);
    assert(stem.spec_bytes() =~= p.subrange(from as int, to as int));
    stem
}

/// Where the last component of `b` begins.
fn find_name_start(b: &[u8]) -> (r: usize)
    ensures
        r == name_start(b@),
        r <= b@.len(),
        r > 0 ==> is_separator(b@[r - 1]),
{
    let ghost p = b@;
    let n = b.len();
    let mut start: usize = n;
    assert(p.subrange(0, n as int) =~= p);
    while start > 0 && !(b[start - 1] == 47u8 || b[start - 1] == 92u8)
        invariant
            b@ == p,
            n == p.len(),
            start <= n,
            name_start(p) == name_start(p.subrange(0, start as int)),
        decreases start,
    {
        assert(p.subrange(0, start as int).drop_last() =~= p.subrange(0, start - 1));
        start = start - 1;
    }
    proof {
        if start == 0 {
            assert(p.subrange(0, 0).len() == 0);
        }
    }
    start
}

/// One past the last dot of `b[start..]`, or `start` when it holds none.
fn find_dot_end(b: &[u8], start: usize) -> (r: usize)
    requires
        start <= b@.len(),
    ensures
        start <= r <= b@.len(),
        r == start ==> last_dot(b@.subrange(start as int, b@.len() as int)) == -1,
        r > start ==> last_dot(b@.subrange(start as int, b@.len() as int)) == r - 1 - start,
        r > start ==> b@[r - 1] == 46u8,
{
    let ghost p = b@;
    let n = b.len();
    let ghost name = p.subrange(start as int, n as int);
    let mut dot: usize = n;
    assert(name.subrange(0, n - start) =~= name);
    while dot > start && b[dot - 1] != 46u8
        invariant
            b@ == p,
            n == p.len(),
            start <= dot <= n,
            name == p.subrange(start as int, n as int),
            last_dot(name) == last_dot(name.subrange(0, dot - start)),
        decreases dot,
    {
        assert(name.subrange(0, dot - start).drop_last() =~= name.subrange(0, dot - 1 - start));
        dot = dot - 1;
    }
    proof {
        if dot == start {
            assert(name.subrange(0, 0).len() == 0);
        }
    }
    dot
}

/// Splits a path into the stem it is grouped by and the slot it fills.
pub fn split_path(path: &str) -> (r: Result<(String, Format), RegisterError>)
    ensures
        match (r, classify(path.spec_bytes())) {
            (Ok((s, f)), Ok((ss, ff))) => encode_utf8(s@) == ss && s@ == decode_utf8(ss) && f == ff,
            (Err(e), Err(ee)) => e == ee,
            _ => false,
        },
{
    let b = path.as_bytes();
    let ghost p = b@;
    let n = b.len();
    let start = find_name_start(b);
    let ghost name = p.subrange(start as int, n as int);
    assert(name == file_name(p));
    let dot = find_dot_end(b, start);
    if n == start || (n - start == 1 && b[start] == 46u8) || (n - start == 2 && b[start] == 46u8
        && b[start + 1] == 46u8) {
        return Err(RegisterError::InvalidPath);
    }
    assert(has_stem(p));
    if dot <= start + 1 {
        assert(extension_of(p) is None);
        return Err(RegisterError::UnsupportedFormat);
    }
    let d = dot - 1;
    assert(p.subrange(d + 1, n as int) =~= name.subrange(last_dot(name) + 1, name.len() as int));
    assert(seq![106u8, 112u8, 103u8] =~= lossy_extension());
    assert(seq![110u8, 101u8, 102u8] =~= raw_extension());
    let format = if extension_is(b, d, 106u8, 112u8, 103u8) {
        Format::Lossy
    } else if extension_is(b, d, 110u8, 101u8, 102u8) {
        Format::Raw
    } else {
        return Err(RegisterError::UnsupportedFormat);
    };
    let stem = stem_slice(path, start, d);
    assert(stem.spec_bytes() =~= stem_of(p));
    let owned = stem.to_owned();
    proof {
        encode_utf8_decode_utf8(owned@);
    }
    Ok((owned, format))
}

} // verus!
