//! Grammar primitives: byte classifiers and small cursor-advancing parsers.
//!
//! The functions here are either questions or parsers.  Questions are
//! yes-or-no questions about a single byte.  Parsers scan an input slice and
//! return `Some(..., rest of line)` on success, `None` on a grammar
//! violation.  Every parser fails definitely (no panic) when it meets a
//! banned byte (NUL, CR) before its rule is satisfied; LF never appears
//! mid-line because the caller strips the terminator before parsing.

use vstd::prelude::*;
use vstd::slice::slice_subrange;

use crate::message::AssembleError;

verus! {

// ---------------------------------------------------------------------------
// Byte classes
// ---------------------------------------------------------------------------

/// The byte is NUL, CR or LF.
pub open spec fn spec_is_nulcrlf(x: u8) -> bool {
    x == 0 || x == 13 || x == 10
}

/// The byte is NUL, CR, LF or a space.
pub open spec fn spec_is_nulcrlfspace(x: u8) -> bool {
    spec_is_nulcrlf(x) || x == 32
}

/// The byte is NUL, CR, LF, a space, `@` or `!`.
pub open spec fn spec_is_nulcrlfspaceatbang(x: u8) -> bool {
    spec_is_nulcrlfspace(x) || x == 64 || x == 33
}

pub fn is_nulcrlf(x: u8) -> (r: bool)
    ensures
        r == spec_is_nulcrlf(x),
{
    x == 0 || x == 13 || x == 10
}

pub fn is_nulcrlfspace(x: u8) -> (r: bool)
    ensures
        r == spec_is_nulcrlfspace(x),
{
    x == 0 || x == 13 || x == 10 || x == 32
}

pub fn is_nulcrlfspaceatbang(x: u8) -> (r: bool)
    ensures
        r == spec_is_nulcrlfspaceatbang(x),
{
    x == 0 || x == 13 || x == 10 || x == 32 || x == 64 || x == 33
}

// ---------------------------------------------------------------------------
// Parameter validity
// ---------------------------------------------------------------------------

/// A non-trailing parameter is valid: non-empty, no NUL/CR/LF/space, and it
/// does not start with a colon.
pub open spec fn param_ok(p: Seq<u8>) -> bool {
    &&& p.len() > 0
    &&& p[0] != 58
    &&& forall|i: int| #![auto] 0 <= i < p.len() ==> !spec_is_nulcrlfspace(p[i])
}

/// A trailing parameter is valid: it may be empty and may hold spaces and
/// colons, but no NUL, CR or LF.
pub open spec fn trailing_param_ok(p: Seq<u8>) -> bool {
    forall|i: int| #![auto] 0 <= i < p.len() ==> !spec_is_nulcrlf(p[i])
}

/// Check a non-trailing parameter for assembly.
pub fn validate_param(param: &[u8]) -> (r: Result<(), AssembleError>)
    ensures
        r is Ok <==> param_ok(param@),
        r is Err ==> r == Err::<(), AssembleError>(AssembleError::InvalidParam),
{
    if param.len() == 0 {
        return Err(AssembleError::InvalidParam);
    }
    let mut n: usize = 0;
    while n < param.len()
        invariant
            n <= param@.len(),
            forall|j: int| #![auto] 0 <= j < n ==> !spec_is_nulcrlfspace(param@[j]),
        decreases param@.len() - n,
    {
        if is_nulcrlfspace(param[n]) {
            return Err(AssembleError::InvalidParam);
        }
        n += 1;
    }
    if param[0] == 58 {
        return Err(AssembleError::InvalidParam);
    }
    Ok(())
}

/// Check a trailing parameter for assembly.
pub fn validate_trailing_param(param: &[u8]) -> (r: Result<(), AssembleError>)
    ensures
        r is Ok <==> trailing_param_ok(param@),
        r is Err ==> r == Err::<(), AssembleError>(AssembleError::InvalidTrailingParam),
{
    let mut n: usize = 0;
    while n < param.len()
        invariant
            n <= param@.len(),
            forall|j: int| #![auto] 0 <= j < n ==> !spec_is_nulcrlf(param@[j]),
        decreases param@.len() - n,
    {
        if is_nulcrlf(param[n]) {
            return Err(AssembleError::InvalidTrailingParam);
        }
        n += 1;
    }
    Ok(())
}

// ---------------------------------------------------------------------------
// Find the first space (token terminator)
// ---------------------------------------------------------------------------

/// Index of the first space in `line`, or `line.len()` if there is none;
/// `None` if a NUL or CR stands before any space.
pub open spec fn spec_find_sp(line: Seq<u8>) -> Option<int>
    decreases line.len(),
{
    if line.len() == 0 {
        Some(0int)
    } else if line[0] == 0 || line[0] == 13 {
        None
    } else if line[0] == 32 {
        Some(0int)
    } else {
        match spec_find_sp(line.drop_first()) {
            None => None,
            Some(i) => Some(i + 1),
        }
    }
}

/// What a successful or failed scan says about the line.
pub proof fn lemma_find_sp_props(line: Seq<u8>)
    ensures
        match spec_find_sp(line) {
            Some(i) => {
                &&& 0 <= i <= line.len()
                &&& (i < line.len() ==> line[i] == 32)
                &&& forall|j: int| #![auto]
                    0 <= j < i ==> line[j] != 0 && line[j] != 13 && line[j] != 32
            },
            None => true,
        },
    decreases line.len(),
{
    if line.len() == 0 {
    } else if line[0] == 0 || line[0] == 13 {
    } else if line[0] == 32 {
    } else {
        lemma_find_sp_props(line.drop_first());
        match spec_find_sp(line.drop_first()) {
            None => {},
            Some(i) => {
                assert forall|j: int| 0 <= j < i + 1 implies line[j] != 0 && line[j] != 13
                    && line[j] != 32 by {
                    if j > 0 {
                        assert(line.drop_first()[j - 1] == line[j]);
                    }
                }
            },
        }
    }
}

/// The scan finds exactly the first space (or the end of the line).
pub proof fn lemma_find_sp_found(line: Seq<u8>, i: int)
    requires
        0 <= i <= line.len(),
        forall|j: int| #![auto] 0 <= j < i ==> line[j] != 0 && line[j] != 13 && line[j] != 32,
        i == line.len() || line[i] == 32,
    ensures
        spec_find_sp(line) == Some(i),
    decreases i,
{
    if i == 0 {
    } else {
        assert(line[0] != 0 && line[0] != 13 && line[0] != 32);
        assert(forall|j: int| #![auto]
            0 <= j < i - 1 ==> line.drop_first()[j] == line[j + 1]);
        lemma_find_sp_found(line.drop_first(), i - 1);
    }
}

/// The scan fails exactly when a NUL or CR stands before any space.
pub proof fn lemma_find_sp_stopped(line: Seq<u8>, i: int)
    requires
        0 <= i < line.len(),
        line[i] == 0 || line[i] == 13,
        forall|j: int| #![auto] 0 <= j < i ==> line[j] != 0 && line[j] != 13 && line[j] != 32,
    ensures
        spec_find_sp(line) == None::<int>,
    decreases i,
{
    if i == 0 {
    } else {
        assert(line[0] != 0 && line[0] != 13 && line[0] != 32);
        assert(forall|j: int| #![auto]
            0 <= j < i - 1 ==> line.drop_first()[j] == line[j + 1]);
        assert(line.drop_first()[i - 1] == line[i]);
        lemma_find_sp_stopped(line.drop_first(), i - 1);
    }
}

/// Scan from the start of a slice for the first space.  Returns the index of
/// the first space, or the slice's length if no space occurs; fails when a
/// bare NUL or CR is seen before any terminator.
pub fn find_idx_of_space_or_end(line: &[u8]) -> (r: Option<usize>)
    ensures
        match r {
            Some(n) => n <= line@.len() && spec_find_sp(line@) == Some(n as int),
            None => spec_find_sp(line@) == None::<int>,
        },
{
    let mut n: usize = 0;
    while n < line.len()
        invariant
            n <= line@.len(),
            forall|j: int| #![auto]
                0 <= j < n ==> line@[j] != 0 && line@[j] != 13 && line@[j] != 32,
        decreases line@.len() - n,
    {
        let b = line[n];
        if b == 13 || b == 0 {
            proof {
                lemma_find_sp_stopped(line@, n as int);
            }
            return None;
        }
        if b == 32 {
            proof {
                lemma_find_sp_found(line@, n as int);
            }
            return Some(n);
        }
        n += 1;
    }
    proof {
        lemma_find_sp_found(line@, line@.len() as int);
    }
    Some(n)
}

// ---------------------------------------------------------------------------
// Skip a run of leading spaces
// ---------------------------------------------------------------------------

/// The line after any run of leading spaces; `None` if a NUL or CR stands
/// directly after that run.
pub open spec fn spec_skip_sp(line: Seq<u8>) -> Option<Seq<u8>>
    decreases line.len(),
{
    if line.len() == 0 {
        Some(line)
    } else if line[0] == 0 || line[0] == 13 {
        None
    } else if line[0] == 32 {
        spec_skip_sp(line.drop_first())
    } else {
        Some(line)
    }
}

/// The skip lands exactly after the leading run of spaces.
pub proof fn lemma_skip_sp_found(line: Seq<u8>, k: int)
    requires
        0 <= k <= line.len(),
        forall|j: int| #![auto] 0 <= j < k ==> line[j] == 32,
        k == line.len() || (line[k] != 32 && line[k] != 0 && line[k] != 13),
    ensures
        spec_skip_sp(line) == Some(line.subrange(k, line.len() as int)),
    decreases k,
{
    if k == 0 {
        assert(line.subrange(0, line.len() as int) =~= line);
    } else {
        assert(forall|j: int| #![auto]
            0 <= j < k - 1 ==> line.drop_first()[j] == line[j + 1]);
        lemma_skip_sp_found(line.drop_first(), k - 1);
        assert(line.drop_first().subrange(k - 1, line.len() - 1)
            =~= line.subrange(k, line.len() as int));
    }
}

/// The skip fails exactly when a NUL or CR stands after the leading spaces.
pub proof fn lemma_skip_sp_stopped(line: Seq<u8>, k: int)
    requires
        0 <= k < line.len(),
        forall|j: int| #![auto] 0 <= j < k ==> line[j] == 32,
        line[k] == 0 || line[k] == 13,
    ensures
        spec_skip_sp(line) == None::<Seq<u8>>,
    decreases k,
{
    if k == 0 {
    } else {
        assert(forall|j: int| #![auto]
            0 <= j < k - 1 ==> line.drop_first()[j] == line[j + 1]);
        assert(line.drop_first()[k - 1] == line[k]);
        lemma_skip_sp_stopped(line.drop_first(), k - 1);
    }
}

/// A successful skip never lengthens the line, and strictly shortens it when
/// the line starts with a space.
pub proof fn lemma_skip_sp_le(line: Seq<u8>)
    ensures
        match spec_skip_sp(line) {
            Some(r) => r.len() <= line.len()
                && (line.len() > 0 && line[0] == 32 ==> r.len() < line.len()),
            None => true,
        },
    decreases line.len(),
{
    if line.len() == 0 {
    } else if line[0] == 0 || line[0] == 13 {
    } else if line[0] == 32 {
        lemma_skip_sp_le(line.drop_first());
    } else {
    }
}

/// What any successful skip says: the remainder is no longer than the line,
/// and it is empty or starts with a byte that no scan stops at.
pub proof fn lemma_skip_sp_props(line: Seq<u8>)
    ensures
        match spec_skip_sp(line) {
            Some(r) => r.len() <= line.len() && (r.len() > 0 ==> r[0] != 32 && r[0] != 0
                && r[0] != 13),
            None => true,
        },
    decreases line.len(),
{
    if line.len() == 0 {
    } else if line[0] == 0 || line[0] == 13 {
    } else if line[0] == 32 {
        lemma_skip_sp_props(line.drop_first());
    } else {
    }
}

/// Advance past any run of spaces; fail if a NUL or CR follows the run.
/// Returns the remaining slice, which may be empty.
pub fn skip_leading_space(line: &[u8]) -> (r: Option<&[u8]>)
    ensures
        match r {
            Some(rest) => spec_skip_sp(line@) == Some(rest@),
            None => spec_skip_sp(line@) == None::<Seq<u8>>,
        },
{
    let mut n: usize = 0;
    while n < line.len()
        invariant
            n <= line@.len(),
            forall|j: int| #![auto] 0 <= j < n ==> line@[j] == 32,
        decreases line@.len() - n,
    {
        let b = line[n];
        if b == 13 || b == 0 {
            proof {
                lemma_skip_sp_stopped(line@, n as int);
            }
            return None;
        }
        if b != 32 {
            proof {
                lemma_skip_sp_found(line@, n as int);
            }
            return Some(slice_subrange(line, n, line.len()));
        }
        n += 1;
    }
    proof {
        lemma_skip_sp_found(line@, line@.len() as int);
    }
    Some(slice_subrange(line, line.len(), line.len()))
}

// ---------------------------------------------------------------------------
// Message tags
// ---------------------------------------------------------------------------

/// Split an optional leading tag region off the line.  When the line starts
/// with `@`, the result is the opaque tag bytes (never decoded further) and
/// the rest of the line after the separating spaces; otherwise the line is
/// returned unchanged with no tags.
pub open spec fn spec_parse_tags(line: Seq<u8>) -> Option<(Option<Seq<u8>>, Seq<u8>)> {
    if line.len() == 0 || line[0] != 64 {
        Some((None, line))
    } else {
        match spec_find_sp(line) {
            None => None,
            Some(split) => match spec_skip_sp(line.subrange(split, line.len() as int)) {
                None => None,
                Some(rest) => Some((Some(line.subrange(1, split)), rest)),
            },
        }
    }
}

/// Split an optional leading tag region off the line.  The tag bytes are an
/// opaque, currently-unparsed extension point.
pub fn parse_tags(line: &[u8]) -> (r: Option<(Option<&[u8]>, &[u8])>)
    ensures
        match r {
            Some((tags, rest)) => spec_parse_tags(line@) == Some((
                match tags {
                    Some(t) => Some(t@),
                    None => None::<Seq<u8>>,
                },
                rest@,
            )),
            None => spec_parse_tags(line@) == None::<(Option<Seq<u8>>, Seq<u8>)>,
        },
{
    if line.len() == 0 || line[0] != 64 {
        return Some((None, line));
    }
    let split = match find_idx_of_space_or_end(line) {
        None => return None,
        Some(s) => s,
    };
    let rest = match skip_leading_space(slice_subrange(line, split, line.len())) {
        None => return None,
        Some(r) => r,
    };
    proof {
        lemma_find_sp_props(line@);
    }
    let tags = slice_subrange(line, 1, split);
    Some((Some(tags), rest))
}

// ---------------------------------------------------------------------------
// Source tokens
// ---------------------------------------------------------------------------

/// Scan a token (already known to hold no space) for its first `@` or `!`.
/// Returns the text before the delimiter, the delimiter itself (a space
/// stands for "none": the token ended first), and the remainder after it.
pub open spec fn spec_split_nick(line: Seq<u8>) -> Option<(Seq<u8>, u8, Seq<u8>)>
    decreases line.len(),
{
    if line.len() == 0 {
        Some((line, 32u8, line))
    } else if line[0] == 0 || line[0] == 13 {
        None
    } else if line[0] == 64 || line[0] == 33 {
        Some((Seq::empty(), line[0], line.drop_first()))
    } else {
        match spec_split_nick(line.drop_first()) {
            None => None,
            Some((pre, d, post)) => Some((seq![line[0]] + pre, d, post)),
        }
    }
}

/// Like `spec_split_nick`, but only `@` delimits: a `!` is a failure.
pub open spec fn spec_split_user(line: Seq<u8>) -> Option<(Seq<u8>, u8, Seq<u8>)>
    decreases line.len(),
{
    if line.len() == 0 {
        Some((line, 32u8, line))
    } else if line[0] == 0 || line[0] == 13 || line[0] == 33 {
        None
    } else if line[0] == 64 {
        Some((Seq::empty(), line[0], line.drop_first()))
    } else {
        match spec_split_user(line.drop_first()) {
            None => None,
            Some((pre, d, post)) => Some((seq![line[0]] + pre, d, post)),
        }
    }
}

/// A hostname token is accepted whole; a NUL, CR, `!` or `@` in it is a
/// failure.
pub open spec fn spec_check_host(line: Seq<u8>) -> Option<Seq<u8>>
    decreases line.len(),
{
    if line.len() == 0 {
        Some(line)
    } else if line[0] == 0 || line[0] == 13 || line[0] == 33 || line[0] == 64 {
        None
    } else {
        match spec_check_host(line.drop_first()) {
            None => None,
            Some(_) => Some(line),
        }
    }
}

/// A clean scan returns the whole token with the "none" delimiter.
pub proof fn lemma_split_nick_clean(line: Seq<u8>)
    requires
        forall|i: int| #![auto]
            0 <= i < line.len() ==> line[i] != 0 && line[i] != 13 && line[i] != 64
                && line[i] != 33,
    ensures
        spec_split_nick(line) == Some((line, 32u8, Seq::<u8>::empty())),
        spec_split_user(line) == Some((line, 32u8, Seq::<u8>::empty())),
    decreases line.len(),
{
    if line.len() == 0 {
        assert(line =~= Seq::<u8>::empty());
    } else {
        assert(forall|j: int| #![auto]
            0 <= j < line.len() - 1 ==> line.drop_first()[j] == line[j + 1]);
        lemma_split_nick_clean(line.drop_first());
        assert(seq![line[0]] + line.drop_first() =~= line);
    }
}

/// A scan that meets its delimiter splits the token exactly there.
pub proof fn lemma_split_nick_delim(line: Seq<u8>, i: int)
    requires
        0 <= i < line.len(),
        line[i] == 64 || line[i] == 33,
        forall|j: int| #![auto]
            0 <= j < i ==> line[j] != 0 && line[j] != 13 && line[j] != 64
                && line[j] != 33,
    ensures
        spec_split_nick(line) == Some(
            (line.subrange(0, i), line[i], line.subrange(i + 1, line.len() as int)),
        ),
    decreases i,
{
    if i == 0 {
        assert(line.subrange(0, 0) =~= Seq::<u8>::empty());
        assert(line.subrange(1, line.len() as int) =~= line.drop_first());
    } else {
        assert(forall|j: int| #![auto]
            0 <= j < line.len() - 1 ==> line.drop_first()[j] == line[j + 1]);
        lemma_split_nick_delim(line.drop_first(), i - 1);
        assert(seq![line[0]] + line.drop_first().subrange(0, i - 1)
            =~= line.subrange(0, i));
        assert(line.drop_first().subrange(i, line.len() - 1)
            =~= line.subrange(i + 1, line.len() as int));
    }
}

/// Like `lemma_split_nick_delim`, for the user scan and its `@` delimiter.
pub proof fn lemma_split_user_delim(line: Seq<u8>, i: int)
    requires
        0 <= i < line.len(),
        line[i] == 64,
        forall|j: int| #![auto]
            0 <= j < i ==> line[j] != 0 && line[j] != 13 && line[j] != 64
                && line[j] != 33,
    ensures
        spec_split_user(line) == Some(
            (line.subrange(0, i), 64u8, line.subrange(i + 1, line.len() as int)),
        ),
    decreases i,
{
    if i == 0 {
        assert(line.subrange(0, 0) =~= Seq::<u8>::empty());
        assert(line.subrange(1, line.len() as int) =~= line.drop_first());
    } else {
        assert(forall|j: int| #![auto]
            0 <= j < line.len() - 1 ==> line.drop_first()[j] == line[j + 1]);
        lemma_split_user_delim(line.drop_first(), i - 1);
        assert(seq![line[0]] + line.drop_first().subrange(0, i - 1)
            =~= line.subrange(0, i));
        assert(line.drop_first().subrange(i, line.len() - 1)
            =~= line.subrange(i + 1, line.len() as int));
    }
}

/// A clean hostname token is accepted whole.
pub proof fn lemma_check_host_clean(line: Seq<u8>)
    requires
        forall|i: int| #![auto]
            0 <= i < line.len() ==> line[i] != 0 && line[i] != 13 && line[i] != 64
                && line[i] != 33,
    ensures
        spec_check_host(line) == Some(line),
    decreases line.len(),
{
    if line.len() == 0 {
    } else {
        assert(forall|j: int| #![auto]
            0 <= j < line.len() - 1 ==> line.drop_first()[j] == line[j + 1]);
        lemma_check_host_clean(line.drop_first());
    }
}

/// What any successful nick or user scan says: the parts reassemble to the
/// token, the text before the delimiter is clean, and the "none" delimiter
/// means the whole token was clean.
pub proof fn lemma_split_nick_props(line: Seq<u8>)
    ensures
        match spec_split_nick(line) {
            Some((pre, d, post)) => {
                &&& (d == 32 || d == 64 || d == 33)
                &&& (d == 32 ==> pre == line && post.len() == 0)
                &&& (d != 32 ==> line =~= pre + seq![d] + post)
                &&& forall|j: int| #![auto]
                    0 <= j < pre.len() ==> pre[j] != 0 && pre[j] != 13 && pre[j] != 64
                        && pre[j] != 33
            },
            None => true,
        },
        match spec_split_user(line) {
            Some((pre, d, post)) => {
                &&& (d == 32 || d == 64)
                &&& (d == 32 ==> pre == line && post.len() == 0)
                &&& (d != 32 ==> line =~= pre + seq![d] + post)
                &&& forall|j: int| #![auto]
                    0 <= j < pre.len() ==> pre[j] != 0 && pre[j] != 13 && pre[j] != 64
                        && pre[j] != 33
            },
            None => true,
        },
    decreases line.len(),
{
    if line.len() == 0 {
    } else if line[0] == 0 || line[0] == 13 {
    } else if line[0] == 64 || line[0] == 33 {
        assert(line =~= Seq::<u8>::empty() + seq![line[0]] + line.drop_first());
    } else {
        lemma_split_nick_props(line.drop_first());
        assert(forall|j: int| #![auto]
            0 <= j < line.len() - 1 ==> line.drop_first()[j] == line[j + 1]);
        match spec_split_nick(line.drop_first()) {
            None => {},
            Some((pre, d, post)) => {
                let pre2 = seq![line[0]] + pre;
                if d == 32 {
                    assert(pre2 =~= line);
                } else {
                    let rhs = pre2 + seq![d] + post;
                    assert forall|i: int| 0 <= i < line.len() implies line[i] == rhs[i] by {
                        if i == 0 {
                            assert(rhs[0] == pre2[0]);
                        } else {
                            assert(line.drop_first()[i - 1] == line[i]);
                            assert(line.drop_first()[i - 1] == (pre + seq![d] + post)[i - 1]);
                            if i <= pre.len() {
                                assert((pre + seq![d] + post)[i - 1] == pre[i - 1]);
                                assert(rhs[i] == pre2[i]);
                                assert(pre2[i] == pre[i - 1]);
                            } else if i == pre.len() + 1 {
                                assert((pre + seq![d] + post)[i - 1] == d);
                                assert(rhs[i] == d);
                            } else {
                                assert((pre + seq![d] + post)[i - 1] == post[i - 2 - pre.len()]);
                                assert(rhs[i] == post[i - 2 - pre.len()]);
                            }
                        }
                    }
                    assert(line =~= rhs);
                }
                assert forall|j: int| 0 <= j < pre2.len() implies pre2[j] != 0 && pre2[j]
                    != 13 && pre2[j] != 64 && pre2[j] != 33 by {
                    if j > 0 {
                        assert(pre2[j] == pre[j - 1]);
                    }
                }
            },
        }
        match spec_split_user(line.drop_first()) {
            None => {},
            Some((pre, d, post)) => {
                let pre2 = seq![line[0]] + pre;
                if d == 32 {
                    assert(pre2 =~= line);
                } else {
                    let rhs = pre2 + seq![d] + post;
                    assert forall|i: int| 0 <= i < line.len() implies line[i] == rhs[i] by {
                        if i == 0 {
                            assert(rhs[0] == pre2[0]);
                        } else {
                            assert(line.drop_first()[i - 1] == line[i]);
                            assert(line.drop_first()[i - 1] == (pre + seq![d] + post)[i - 1]);
                            if i <= pre.len() {
                                assert((pre + seq![d] + post)[i - 1] == pre[i - 1]);
                                assert(rhs[i] == pre2[i]);
                                assert(pre2[i] == pre[i - 1]);
                            } else if i == pre.len() + 1 {
                                assert((pre + seq![d] + post)[i - 1] == d);
                                assert(rhs[i] == d);
                            } else {
                                assert((pre + seq![d] + post)[i - 1] == post[i - 2 - pre.len()]);
                                assert(rhs[i] == post[i - 2 - pre.len()]);
                            }
                        }
                    }
                    assert(line =~= rhs);
                }
                assert forall|j: int| 0 <= j < pre2.len() implies pre2[j] != 0 && pre2[j]
                    != 13 && pre2[j] != 64 && pre2[j] != 33 by {
                    if j > 0 {
                        assert(pre2[j] == pre[j - 1]);
                    }
                }
            },
        }
    }
}

/// What a successful hostname scan says: the token was clean.
pub proof fn lemma_check_host_props(line: Seq<u8>)
    ensures
        match spec_check_host(line) {
            Some(h) => h == line && forall|j: int| #![auto]
                0 <= j < line.len() ==> line[j] != 0 && line[j] != 13
                    && line[j] != 64 && line[j] != 33,
            None => true,
        },
    decreases line.len(),
{
    if line.len() == 0 {
    } else if line[0] == 0 || line[0] == 13 || line[0] == 33 || line[0] == 64 {
    } else {
        lemma_check_host_props(line.drop_first());
        match spec_check_host(line.drop_first()) {
            None => {},
            Some(_) => {
                assert forall|j: int| 0 <= j < line.len() implies line[j] != 0 && line[j]
                    != 13 && line[j] != 64 && line[j] != 33 by {
                    if j > 0 {
                        assert(line.drop_first()[j - 1] == line[j]);
                    }
                }
            },
        }
    }
}

/// Scan a source token for "nick or server name": the text before the first
/// `@` or `!` (or the whole token), which delimiter was found (a space
/// stands for "none"), and the remainder after the delimiter.
pub fn parse_source_name_or_nick(line: &[u8]) -> (r: Option<(&[u8], u8, &[u8])>)
    requires
        forall|i: int| #![auto] 0 <= i < line@.len() ==> line@[i] != 32,
    ensures
        match r {
            Some((pre, d, post)) => spec_split_nick(line@) == Some((pre@, d, post@)),
            None => spec_split_nick(line@) == None::<(Seq<u8>, u8, Seq<u8>)>,
        },
{
    let mut i: usize = 0;
    while i < line.len()
        invariant
            i <= line@.len(),
            forall|j: int| #![auto]
                0 <= j < i ==> line@[j] != 0 && line@[j] != 13 && line@[j] != 64
                    && line@[j] != 33,
        decreases line@.len() - i,
    {
        let b = line[i];
        if b == 13 || b == 0 {
            proof {
                lemma_split_nick_stopped(line@, i as int);
            }
            return None;
        }
        if b == 64 || b == 33 {
            proof {
                lemma_split_nick_delim(line@, i as int);
            }
            return Some((
                slice_subrange(line, 0, i),
                b,
                slice_subrange(line, i + 1, line.len()),
            ));
        }
        i += 1;
    }
    proof {
        lemma_split_nick_clean(line@);
    }
    Some((line, 32, slice_subrange(line, line.len(), line.len())))
}

/// A scan that meets NUL or CR fails.
pub proof fn lemma_split_nick_stopped(line: Seq<u8>, i: int)
    requires
        0 <= i < line.len(),
        line[i] == 0 || line[i] == 13,
        forall|j: int| #![auto]
            0 <= j < i ==> line[j] != 0 && line[j] != 13 && line[j] != 64
                && line[j] != 33,
    ensures
        spec_split_nick(line) == None::<(Seq<u8>, u8, Seq<u8>)>,
        spec_split_user(line) == None::<(Seq<u8>, u8, Seq<u8>)>,
        spec_check_host(line) == None::<Seq<u8>>,
    decreases i,
{
    if i == 0 {
    } else {
        assert(forall|j: int| #![auto]
            0 <= j < line.len() - 1 ==> line.drop_first()[j] == line[j + 1]);
        assert(line.drop_first()[i - 1] == line[i]);
        lemma_split_nick_stopped(line.drop_first(), i - 1);
    }
}

/// Scan a source token for the username part: the text before the first
/// `@`, which delimiter was found (a space stands for "none"), and the
/// remainder.  A `!` here is a failure.
pub fn parse_source_user(line: &[u8]) -> (r: Option<(&[u8], u8, &[u8])>)
    requires
        forall|i: int| #![auto] 0 <= i < line@.len() ==> line@[i] != 32,
    ensures
        match r {
            Some((pre, d, post)) => spec_split_user(line@) == Some((pre@, d, post@)),
            None => spec_split_user(line@) == None::<(Seq<u8>, u8, Seq<u8>)>,
        },
{
    let mut i: usize = 0;
    while i < line.len()
        invariant
            i <= line@.len(),
            forall|j: int| #![auto]
                0 <= j < i ==> line@[j] != 0 && line@[j] != 13 && line@[j] != 64
                    && line@[j] != 33,
        decreases line@.len() - i,
    {
        let b = line[i];
        if b == 13 || b == 0 || b == 33 {
            proof {
                if b == 33 {
                    lemma_split_user_bang(line@, i as int);
                } else {
                    lemma_split_nick_stopped(line@, i as int);
                }
            }
            return None;
        }
        if b == 64 {
            proof {
                lemma_split_user_delim(line@, i as int);
            }
            return Some((
                slice_subrange(line, 0, i),
                b,
                slice_subrange(line, i + 1, line.len()),
            ));
        }
        i += 1;
    }
    proof {
        lemma_split_nick_clean(line@);
    }
    Some((line, 32, slice_subrange(line, line.len(), line.len())))
}

/// A user scan that meets a `!` fails.
pub proof fn lemma_split_user_bang(line: Seq<u8>, i: int)
    requires
        0 <= i < line.len(),
        line[i] == 33,
        forall|j: int| #![auto]
            0 <= j < i ==> line[j] != 0 && line[j] != 13 && line[j] != 64
                && line[j] != 33,
    ensures
        spec_split_user(line) == None::<(Seq<u8>, u8, Seq<u8>)>,
    decreases i,
{
    if i == 0 {
    } else {
        assert(forall|j: int| #![auto]
            0 <= j < line.len() - 1 ==> line.drop_first()[j] == line[j + 1]);
        assert(line.drop_first()[i - 1] == line[i]);
        lemma_split_user_bang(line.drop_first(), i - 1);
    }
}

/// Scan a hostname token: the whole token is the hostname, and the remainder
/// is always empty.  A NUL, CR, `!` or `@` in it is a failure.
pub fn parse_source_host(line: &[u8]) -> (r: Option<(&[u8], &[u8])>)
    requires
        forall|i: int| #![auto] 0 <= i < line@.len() ==> line@[i] != 32,
    ensures
        match r {
            Some((host, rest)) => spec_check_host(line@) == Some(host@) && rest@.len() == 0,
            None => spec_check_host(line@) == None::<Seq<u8>>,
        },
{
    let mut i: usize = 0;
    while i < line.len()
        invariant
            i <= line@.len(),
            forall|j: int| #![auto]
                0 <= j < i ==> line@[j] != 0 && line@[j] != 13 && line@[j] != 64
                    && line@[j] != 33,
        decreases line@.len() - i,
    {
        let b = line[i];
        if b == 13 || b == 0 || b == 33 || b == 64 {
            proof {
                lemma_check_host_stopped(line@, i as int);
            }
            return None;
        }
        i += 1;
    }
    proof {
        lemma_check_host_clean(line@);
    }
    Some((line, slice_subrange(line, line.len(), line.len())))
}

/// A hostname scan that meets a banned byte fails.
pub proof fn lemma_check_host_stopped(line: Seq<u8>, i: int)
    requires
        0 <= i < line.len(),
        line[i] == 0 || line[i] == 13 || line[i] == 33 || line[i] == 64,
        forall|j: int| #![auto]
            0 <= j < i ==> line[j] != 0 && line[j] != 13 && line[j] != 64
                && line[j] != 33,
    ensures
        spec_check_host(line) == None::<Seq<u8>>,
    decreases i,
{
    if i == 0 {
    } else {
        assert(forall|j: int| #![auto]
            0 <= j < line.len() - 1 ==> line.drop_first()[j] == line[j + 1]);
        assert(line.drop_first()[i - 1] == line[i]);
        lemma_check_host_stopped(line.drop_first(), i - 1);
    }
}

// ---------------------------------------------------------------------------
// Digits
// ---------------------------------------------------------------------------

/// The byte is an ASCII decimal digit.
pub open spec fn spec_is_digit(b: u8) -> bool {
    48 <= b && b <= 57
}

/// The numeric value of an ASCII decimal digit.
pub open spec fn spec_digit_val(b: u8) -> int
    recommends
        spec_is_digit(b),
{
    b - 48
}

/// Map `'0'..'9'` to 0 through 9; anything else is a failure.
pub fn parse_digit(digit: u8) -> (r: Option<u32>)
    ensures
        match r {
            Some(v) => spec_is_digit(digit) && v == spec_digit_val(digit),
            None => !spec_is_digit(digit),
        },
{
    if digit >= 48 && digit <= 57 {
        Some((digit - 48) as u32)
    } else {
        None
    }
}

} // verus!
