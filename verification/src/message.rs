//! Structured protocol messages and their wire codec.
//!
//! A [`Message`] encapsulates one RFC 1459 style line.  It holds a single
//! buffer containing the message in its exact encoded form, and addresses
//! the source, command and every parameter as offset ranges into that
//! buffer, so inspection allocates nothing beyond the one buffer.

use vstd::prelude::*;
use vstd::slice::{slice_subrange, slice_to_vec};

use crate::case::upcase;
use crate::message::model::{
    assemble_ok, assembled_view, cmd_bytes, command_first_err, command_ok, enc_msg, enc_params,
    enc_source, enc_source_opt, first_err, fold_command, lemma_enc_params_count,
    lemma_fold_command_ok, lemma_parse_msg_len, middle_count, numeric_digits, params_ok, source_field_ok, source_first_err, source_ok, spec_parse_command, spec_parse_msg,
    spec_parse_params, spec_parse_source, view_wf, MsgView, SpecCommand, SpecSource,
};
use crate::message::parse::{
    find_idx_of_space_or_end, spec_find_sp, is_nulcrlfspace, is_nulcrlfspaceatbang, lemma_find_sp_props,
    lemma_skip_sp_props, lemma_split_nick_props, param_ok, parse_digit, parse_source_host,
    parse_source_name_or_nick, parse_source_user, parse_tags, skip_leading_space,
    trailing_param_ok, validate_param, validate_trailing_param,
};

pub mod model;
pub mod parse;
pub mod roundtrip;

verus! {

/// The named reason for which assembly of a message was refused.  Assembly
/// never partially succeeds: either every part is valid and a full message
/// is produced, or the first violated constraint is reported.
#[derive(Debug, Clone, Copy, PartialEq, Eq)]
pub enum AssembleError {
    /// A server source name holds NUL, CR, LF, a space, `@` or `!`.
    InvalidServerName,
    /// A client source nickname holds NUL, CR, LF, a space, `@` or `!`.
    InvalidNick,
    /// A client source username holds NUL, CR, LF, a space, `@` or `!`.
    InvalidUser,
    /// A client source hostname holds NUL, CR, LF, a space, `@` or `!`.
    InvalidHost,
    /// A numeric command is outside the range 1 through 999.
    InvalidCommandNumber,
    /// A textual command is empty or holds NUL, CR, LF or a space.
    InvalidCommandName,
    /// A non-trailing parameter is empty, starts with a colon, or holds
    /// NUL, CR, LF or a space.
    InvalidParam,
    /// A trailing parameter holds NUL, CR or LF.
    InvalidTrailingParam,
    /// The trailer flag was set although the parameter list is empty.
    TrailerWithoutParams,
}

/// The wording of each assembly failure.
pub open spec fn spec_reason(e: AssembleError) -> Seq<char> {
    match e {
        AssembleError::InvalidServerName => "invalid character in server prefix"@,
        AssembleError::InvalidNick => "invalid character in client nickname"@,
        AssembleError::InvalidUser => "invalid character in client username"@,
        AssembleError::InvalidHost => "invalid character in client hostname"@,
        AssembleError::InvalidCommandNumber => "invalid command number"@,
        AssembleError::InvalidCommandName => "invalid command name"@,
        AssembleError::InvalidParam => "invalid param"@,
        AssembleError::InvalidTrailingParam => "invalid trailing param"@,
        AssembleError::TrailerWithoutParams => "trailer requested with no parameters"@,
    }
}

impl AssembleError {
    /// The named reason for the failure, for reporting.
    pub fn reason(&self) -> (r: &'static str)
        ensures
            r@ == spec_reason(*self),
    {
        match self {
            AssembleError::InvalidServerName => "invalid character in server prefix",
            AssembleError::InvalidNick => "invalid character in client nickname",
            AssembleError::InvalidUser => "invalid character in client username",
            AssembleError::InvalidHost => "invalid character in client hostname",
            AssembleError::InvalidCommandNumber => "invalid command number",
            AssembleError::InvalidCommandName => "invalid command name",
            AssembleError::InvalidParam => "invalid param",
            AssembleError::InvalidTrailingParam => "invalid trailing param",
            AssembleError::TrailerWithoutParams => "trailer requested with no parameters",
        }
    }
}

// ---------------------------------------------------------------------------
// Offset ranges
// ---------------------------------------------------------------------------

/// A (start, end) pair of byte positions into the message buffer.  Offsets
/// are 32 bits: real messages are limited to a few hundred bytes, so the
/// encoding only guards against buffers over `u32::MAX` bytes.
#[derive(Debug, Clone, Copy, Hash)]
struct Span {
    start: u32,
    end: u32,
}

/// The range lies inside a buffer of length `len`.
spec fn span_in(sp: Span, len: int) -> bool {
    sp.start <= sp.end && sp.end as int <= len
}

/// The bytes a range addresses.
spec fn span_bytes(buf: Seq<u8>, sp: Span) -> Seq<u8>
    recommends
        span_in(sp, buf.len() as int),
{
    buf.subrange(sp.start as int, sp.end as int)
}

/// A range keeps addressing the same bytes when the buffer grows at the end.
proof fn lemma_span_stable(b1: Seq<u8>, b2: Seq<u8>, sp: Span)
    requires
        span_in(sp, b1.len() as int),
        b1.len() <= b2.len(),
        b2.subrange(0, b1.len() as int) == b1,
    ensures
        span_bytes(b2, sp) == span_bytes(b1, sp),
{
    assert forall|i: int| 0 <= i < b1.len() implies b2[i] == b1[i] by {
        assert(b2.subrange(0, b1.len() as int)[i] == b2[i]);
    }
    assert(span_bytes(b2, sp) =~= span_bytes(b1, sp));
}

/// Copy some bytes onto the end of a buffer, and return the range occupied.
fn inter_bytes(buf: &mut Vec<u8>, bytes: &[u8]) -> (r: Span)
    requires
        old(buf)@.len() + bytes@.len() <= u32::MAX as int,
    ensures
        final(buf)@ == old(buf)@ + bytes@,
        r.start == old(buf)@.len(),
        r.end == final(buf)@.len(),
        span_in(r, final(buf)@.len() as int),
        span_bytes(final(buf)@, r) == bytes@,
{
    let staato: u32 = buf.len() as u32;
    let ghost buf0 = buf@;
    let mut n: usize = 0;
    while n < bytes.len()
        invariant
            n <= bytes@.len(),
            buf@ == buf0 + bytes@.subrange(0, n as int),
            buf0.len() + bytes@.len() <= u32::MAX as int,
        decreases bytes@.len() - n,
    {
        buf.push(bytes[n]);
        n += 1;
        proof {
            assert(buf0 + bytes@.subrange(0, n - 1) + seq![bytes@[n - 1]]
                =~= buf0 + bytes@.subrange(0, n as int));
        }
    }
    proof {
        assert(buf0 + bytes@.subrange(0, bytes@.len() as int) =~= buf0 + bytes@);
        assert((buf0 + bytes@).subrange(buf0.len() as int, buf0.len() + bytes@.len() as int)
            =~= bytes@);
    }
    let owari: u32 = buf.len() as u32;
    Span { start: staato, end: owari }
}

/// Extract the bytes a range addresses from a buffer.
fn extract_bytes<'a>(buf: &'a [u8], range: &Span) -> (r: &'a [u8])
    requires
        span_in(*range, buf@.len() as int),
    ensures
        r@ == span_bytes(buf@, *range),
{
    slice_subrange(buf, range.start as usize, range.end as usize)
}

// ---------------------------------------------------------------------------
// Source
// ---------------------------------------------------------------------------

/// The internal version of `Source`.  Refers to its data by offset ranges
/// into the message buffer.
#[derive(Debug, Clone, Copy, Hash)]
enum IntSource {
    Server { name: Span },
    Client { nick: Span, user: Option<Span>, host: Span },
}

impl IntSource {
    /// Every range lies inside a buffer of length `len`.
    spec fn wf_in(self, len: int) -> bool {
        match self {
            IntSource::Server { name } => span_in(name, len),
            IntSource::Client { nick, user, host } => {
                &&& span_in(nick, len)
                &&& match user {
                    Some(u) => span_in(u, len),
                    None => true,
                }
                &&& span_in(host, len)
            },
        }
    }

    /// The source value the ranges address in a buffer.
    spec fn spec_extract(self, buf: Seq<u8>) -> SpecSource {
        match self {
            IntSource::Server { name } => SpecSource::Server { name: span_bytes(buf, name) },
            IntSource::Client { nick, user, host } => SpecSource::Client {
                nick: span_bytes(buf, nick),
                user: match user {
                    Some(u) => Some(span_bytes(buf, u)),
                    None => None,
                },
                host: span_bytes(buf, host),
            },
        }
    }

    /// Copy this `IntSource` out of the buffer for outside use.
    fn extract(&self, buf: &[u8]) -> (r: Source)
        requires
            self.wf_in(buf@.len() as int),
        ensures
            r@ == self.spec_extract(buf@),
    {
        match self {
            IntSource::Server { name } => Source::Server {
                name: slice_to_vec(extract_bytes(buf, name)),
            },
            IntSource::Client { nick, user, host } => Source::Client {
                nick: slice_to_vec(extract_bytes(buf, nick)),
                user: match user {
                    Some(u) => Some(slice_to_vec(extract_bytes(buf, u))),
                    None => None,
                },
                host: slice_to_vec(extract_bytes(buf, host)),
            },
        }
    }
}

/// The ranges of an `IntSource` keep addressing the same bytes when the
/// buffer grows at the end.
proof fn lemma_int_source_stable(is: IntSource, b1: Seq<u8>, b2: Seq<u8>)
    requires
        is.wf_in(b1.len() as int),
        b1.len() <= b2.len(),
        b2.subrange(0, b1.len() as int) == b1,
    ensures
        is.wf_in(b2.len() as int),
        is.spec_extract(b2) == is.spec_extract(b1),
{
    match is {
        IntSource::Server { name } => {
            lemma_span_stable(b1, b2, name);
        },
        IntSource::Client { nick, user, host } => {
            lemma_span_stable(b1, b2, nick);
            match user {
                Some(u) => lemma_span_stable(b1, b2, u),
                None => {},
            }
            lemma_span_stable(b1, b2, host);
        },
    }
}

/// The source (prefix) of a message: the server it came from, or the
/// nick/user/host of the client it came from.
#[derive(Debug, Clone, PartialEq, Eq, Hash)]
pub enum Source {
    /// The message came from a server.
    Server { name: Vec<u8> },
    /// The message came from a client.
    Client { nick: Vec<u8>, user: Option<Vec<u8>>, host: Vec<u8> },
}

impl View for Source {
    type V = SpecSource;

    open spec fn view(&self) -> SpecSource {
        match self {
            Source::Server { name } => SpecSource::Server { name: name@ },
            Source::Client { nick, user, host } => SpecSource::Client {
                nick: nick@,
                user: match user {
                    Some(u) => Some(u@),
                    None => None,
                },
                host: host@,
            },
        }
    }
}

/// The view of an optional borrowed source.
pub open spec fn opt_source_ref_view(src: Option<&Source>) -> Option<SpecSource> {
    match src {
        Some(s) => Some(s@),
        None => None,
    }
}

/// The view of an optional owned source.
pub open spec fn opt_source_view(src: Option<Source>) -> Option<SpecSource> {
    match src {
        Some(s) => Some(s@),
        None => None,
    }
}

/// Every byte of the field is free of the structural delimiter bytes.
fn source_field_clean(f: &Vec<u8>) -> (r: bool)
    ensures
        r == source_field_ok(f@),
{
    let mut n: usize = 0;
    while n < f.len()
        invariant
            n <= f@.len(),
            forall|j: int| #![auto] 0 <= j < n ==> !crate::message::parse::spec_is_nulcrlfspaceatbang(f@[j]),
        decreases f@.len() - n,
    {
        if is_nulcrlfspaceatbang(f[n]) {
            return false;
        }
        n += 1;
    }
    true
}

impl Source {
    /// The number of bytes this source requires to encode into a message,
    /// including the leading colon and the trailing space.
    pub fn raw_len(&self) -> (r: usize)
        requires
            enc_source(self@).len() <= usize::MAX as int,
        ensures
            r == enc_source(self@).len(),
    {
        match self {
            Source::Server { name } => name.len() + 2,
            Source::Client { nick, user, host } => match user {
                None => nick.len() + host.len() + 3,
                Some(user) => nick.len() + user.len() + host.len() + 4,
            },
        }
    }

    /// Encode this source into the buffer, and return its `IntSource`
    /// equivalent.
    fn inter(&self, buf: &mut Vec<u8>) -> (r: IntSource)
        requires
            old(buf)@.len() + enc_source(self@).len() <= u32::MAX as int,
        ensures
            final(buf)@ == old(buf)@ + enc_source(self@),
            r.wf_in(final(buf)@.len() as int),
            r.spec_extract(final(buf)@) == self@,
    {
        let ghost buf0 = buf@;
        buf.push(58);
        match self {
            Source::Server { name } => {
                let name_sp = inter_bytes(buf, name.as_slice());
                let ghost b1 = buf@;
                buf.push(32);
                proof {
                    assert(buf@.subrange(0, b1.len() as int) =~= b1);
                    lemma_span_stable(b1, buf@, name_sp);
                    assert(buf@ =~= buf0 + enc_source(self@));
                }
                IntSource::Server { name: name_sp }
            },
            Source::Client { nick, user, host } => {
                let nick_sp = inter_bytes(buf, nick.as_slice());
                let ghost b_nick = buf@;
                let user_sp = match user {
                    Some(u) => {
                        buf.push(33);
                        Some(inter_bytes(buf, u.as_slice()))
                    },
                    None => None,
                };
                let ghost b_user = buf@;
                buf.push(64);
                let host_sp = inter_bytes(buf, host.as_slice());
                let ghost b_host = buf@;
                buf.push(32);
                proof {
                    assert(b_user.subrange(0, b_nick.len() as int) =~= b_nick);
                    lemma_span_stable(b_nick, b_user, nick_sp);
                    assert(buf@.subrange(0, b_host.len() as int) =~= b_host);
                    assert(b_host.subrange(0, b_user.len() as int) =~= b_user);
                    lemma_span_stable(b_user, b_host, nick_sp);
                    lemma_span_stable(b_host, buf@, nick_sp);
                    match user_sp {
                        Some(u_sp) => {
                            lemma_span_stable(b_user, b_host, u_sp);
                            lemma_span_stable(b_host, buf@, u_sp);
                        },
                        None => {},
                    }
                    lemma_span_stable(b_host, buf@, host_sp);
                    assert(buf@ =~= buf0 + enc_source(self@));
                }
                IntSource::Client { nick: nick_sp, user: user_sp, host: host_sp }
            },
        }
    }

    /// Validate this source for assembly: every field must be free of NUL,
    /// CR, LF, space, `@` and `!`, which are structural delimiters.
    pub fn validate(&self) -> (r: Result<(), AssembleError>)
        ensures
            r is Ok <==> source_ok(self@),
            r is Err ==> r == Err::<(), AssembleError>(source_first_err(self@)),
    {
        match self {
            Source::Server { name } => {
                if !source_field_clean(name) {
                    Err(AssembleError::InvalidServerName)
                } else {
                    Ok(())
                }
            },
            Source::Client { nick, user, host } => {
                if !source_field_clean(nick) {
                    return Err(AssembleError::InvalidNick);
                }
                match user {
                    Some(u) => {
                        if !source_field_clean(u) {
                            return Err(AssembleError::InvalidUser);
                        }
                    },
                    None => {},
                }
                if !source_field_clean(host) {
                    return Err(AssembleError::InvalidHost);
                }
                Ok(())
            },
        }
    }

    /// Parse the front of a raw line into a `Source`, or determine that the
    /// line has none.  On success the returned slice is the rest of the
    /// line, after the separating spaces.
    pub fn parse(line: &[u8]) -> (r: Option<(Option<Source>, &[u8])>)
        ensures
            match r {
                Some((src, rest)) => spec_parse_source(line@) == Some(
                    (opt_source_view(src), rest@),
                ),
                None => spec_parse_source(line@) is None,
            },
    {
        if line.len() == 0 || line[0] != 58 {
            return Some((None, line));
        }
        let split = match find_idx_of_space_or_end(line) {
            None => return None,
            Some(s) => s,
        };
        let rest = match skip_leading_space(slice_subrange(line, split, line.len())) {
            None => return None,
            Some(r) => r,
        };
        proof {
            lemma_find_sp_props(line@);
        }
        let tok = slice_subrange(line, 1, split);
        proof {
            assert(forall|i: int| #![auto] 0 <= i < tok@.len() ==> tok@[i] == line@[i + 1]);
        }
        let (first, finale, after) = match parse_source_name_or_nick(tok) {
            None => return None,
            Some(x) => x,
        };
        if finale == 32 {
            return Some((Some(Source::Server { name: slice_to_vec(first) }), rest));
        }
        proof {
            lemma_split_nick_props(tok@);
            assert(forall|i: int| #![auto]
                0 <= i < after@.len() ==> after@[i] == tok@[first@.len() + 1 + i]);
        }
        if finale == 33 {
            let (user, finale2, after2) = match parse_source_user(after) {
                None => return None,
                Some(x) => x,
            };
            if finale2 != 64 {
                return None;
            }
            proof {
                lemma_split_nick_props(after@);
                assert(forall|i: int| #![auto]
                    0 <= i < after2@.len() ==> after2@[i] == after@[user@.len() + 1 + i]);
            }
            let (host, _left) = match parse_source_host(after2) {
                None => return None,
                Some(x) => x,
            };
            return Some((
                Some(Source::Client {
                    nick: slice_to_vec(first),
                    user: Some(slice_to_vec(user)),
                    host: slice_to_vec(host),
                }),
                rest,
            ));
        }
        let (host, _left) = match parse_source_host(after) {
            None => return None,
            Some(x) => x,
        };
        Some((
            Some(Source::Client { nick: slice_to_vec(first), user: None, host: slice_to_vec(host) }),
            rest,
        ))
    }
}

// ---------------------------------------------------------------------------
// Command
// ---------------------------------------------------------------------------

/// The internal version of `Command`.  Refers to its data by an offset range
/// into the message buffer.
#[derive(Debug, Clone, Copy, Hash)]
enum IntCommand {
    Numeric(u32, Span),
    Textual(Span),
}

impl IntCommand {
    /// The range lies inside a buffer of length `len`.
    spec fn wf_in(self, len: int) -> bool {
        match self {
            IntCommand::Numeric(_, sp) => span_in(sp, len),
            IntCommand::Textual(sp) => span_in(sp, len),
        }
    }

    /// The command value the range addresses in a buffer.
    spec fn spec_extract(self, buf: Seq<u8>) -> SpecCommand {
        match self {
            IntCommand::Numeric(x, _) => SpecCommand::Numeric(x),
            IntCommand::Textual(sp) => SpecCommand::Textual(span_bytes(buf, sp)),
        }
    }

    /// Copy this `IntCommand` out of the buffer for outside use.
    fn extract(&self, buf: &[u8]) -> (r: Command)
        requires
            self.wf_in(buf@.len() as int),
        ensures
            r@ == self.spec_extract(buf@),
    {
        match self {
            IntCommand::Numeric(x, _) => Command::Numeric(*x),
            IntCommand::Textual(sp) => Command::Textual(slice_to_vec(extract_bytes(buf, sp))),
        }
    }
}

/// The range of an `IntCommand` keeps addressing the same bytes when the
/// buffer grows at the end.
proof fn lemma_int_command_stable(ic: IntCommand, b1: Seq<u8>, b2: Seq<u8>)
    requires
        ic.wf_in(b1.len() as int),
        b1.len() <= b2.len(),
        b2.subrange(0, b1.len() as int) == b1,
    ensures
        ic.wf_in(b2.len() as int),
        ic.spec_extract(b2) == ic.spec_extract(b1),
{
    match ic {
        IntCommand::Numeric(_, sp) => lemma_span_stable(b1, b2, sp),
        IntCommand::Textual(sp) => lemma_span_stable(b1, b2, sp),
    }
}

/// The command component of a message.
#[derive(Debug, Clone, PartialEq, Eq, Hash)]
pub enum Command {
    /// A numeric command, such as 375 for the start of a MOTD.
    Numeric(u32),
    /// A textual command.  In a message this has always been folded to
    /// uppercase; parsing alone does not fold (see `bufferize`).
    Textual(Vec<u8>),
}

impl View for Command {
    type V = SpecCommand;

    open spec fn view(&self) -> SpecCommand {
        match self {
            Command::Numeric(n) => SpecCommand::Numeric(*n),
            Command::Textual(t) => SpecCommand::Textual(t@),
        }
    }
}

impl Command {
    /// Encode this command into a fresh buffer: the intermediate step before
    /// `inter`.  Folds a textual command to uppercase and checks validity;
    /// a numeric command becomes exactly three zero-padded decimal digits.
    #[verifier::loop_isolation(false)]
    pub fn bufferize(&self) -> (r: Result<Vec<u8>, AssembleError>)
        ensures
            r is Ok <==> command_ok(self@),
            r matches Ok(b) ==> b@ == cmd_bytes(fold_command(self@)),
            r is Err ==> r == Err::<Vec<u8>, AssembleError>(command_first_err(self@)),
    {
        match self {
            Command::Numeric(x) => {
                let x = *x;
                if x == 0 || x > 999 {
                    return Err(AssembleError::InvalidCommandNumber);
                }
                proof {
                    vstd::arithmetic::div_mod::lemma_fundamental_div_mod(x as int, 100);
                    vstd::arithmetic::div_mod::lemma_fundamental_div_mod((x as int) % 100, 10);
                }
                let d0 = (x / 100) as u8 + 48;
                let d1 = ((x % 100) / 10) as u8 + 48;
                let d2 = (x % 10) as u8 + 48;
                let mut out: Vec<u8> = Vec::new();
                out.push(d0);
                out.push(d1);
                out.push(d2);
                proof {
                    assert(out@ =~= numeric_digits(x));
                }
                Ok(out)
            },
            Command::Textual(t) => {
                if t.len() == 0 {
                    return Err(AssembleError::InvalidCommandName);
                }
                let mut out: Vec<u8> = Vec::new();
                let mut n: usize = 0;
                while n < t.len()
                    invariant
                        n <= t@.len(),
                        out@ == crate::case::fold_upper(t@).subrange(0, n as int),
                        forall|j: int| #![auto]
                            0 <= j < n ==> !crate::message::parse::spec_is_nulcrlfspace(t@[j]),
                    decreases t@.len() - n,
                {
                    let b = t[n];
                    if is_nulcrlfspace(b) {
                        return Err(AssembleError::InvalidCommandName);
                    }
                    out.push(upcase(b));
                    n += 1;
                    proof {
                        assert(out@ =~= crate::case::fold_upper(t@).subrange(0, n as int));
                    }
                }
                proof {
                    assert(crate::case::fold_upper(t@).subrange(0, t@.len() as int)
                        =~= crate::case::fold_upper(t@));
                }
                Ok(out)
            },
        }
    }

    /// Encode this command into the message buffer, and return its
    /// `IntCommand` equivalent.  Assumes the command has already been folded
    /// and bufferized into `me_buf`.
    fn inter(&self, me_buf: Vec<u8>, out_buf: &mut Vec<u8>) -> (r: IntCommand)
        requires
            me_buf@ == cmd_bytes(fold_command(self@)),
            old(out_buf)@.len() + me_buf@.len() <= u32::MAX as int,
        ensures
            final(out_buf)@ == old(out_buf)@ + cmd_bytes(fold_command(self@)),
            r.wf_in(final(out_buf)@.len() as int),
            r.spec_extract(final(out_buf)@) == fold_command(self@),
    {
        let range = inter_bytes(out_buf, me_buf.as_slice());
        match self {
            Command::Numeric(x) => IntCommand::Numeric(*x, range),
            Command::Textual(_) => IntCommand::Textual(range),
        }
    }

    /// Parse the command token off the front of a line: exactly three ASCII
    /// digits make a numeric command, any other token is textual (case is
    /// not folded here).  On success the returned slice is the rest of the
    /// line, after the separating spaces.
    pub fn parse(line: &[u8]) -> (r: Option<(Command, &[u8])>)
        ensures
            match r {
                Some((c, rest)) => spec_parse_command(line@) == Some((c@, rest@)),
                None => spec_parse_command(line@) is None,
            },
    {
        if line.len() == 0 {
            return None;
        }
        let split = match find_idx_of_space_or_end(line) {
            None => return None,
            Some(s) => s,
        };
        let rest = match skip_leading_space(slice_subrange(line, split, line.len())) {
            None => return None,
            Some(r) => r,
        };
        let tok = slice_subrange(line, 0, split);
        if tok.len() == 3 {
            let a = parse_digit(tok[0]);
            let b = parse_digit(tok[1]);
            let c = parse_digit(tok[2]);
            match (a, b, c) {
                (Some(a), Some(b), Some(c)) => {
                    return Some((Command::Numeric(a * 100 + b * 10 + c), rest));
                },
                _ => {},
            }
        }
        Some((Command::Textual(slice_to_vec(tok)), rest))
    }
}

// ---------------------------------------------------------------------------
// Message
// ---------------------------------------------------------------------------

/// The view of a list of owned parameters.
pub open spec fn params_view(params: Seq<Vec<u8>>) -> Seq<Seq<u8>> {
    Seq::new(params.len(), |i: int| params[i]@)
}

/// One immutable protocol line.  Holds a single buffer with the message in
/// its exact encoded form, and offset ranges addressing each component, so
/// the raw wire bytes and every part can be returned without copying the
/// buffer again.
#[derive(Debug, Hash)]
pub struct Message {
    buf: Vec<u8>,
    source: Option<IntSource>,
    command: IntCommand,
    params: Vec<Span>,
    trailer: bool,
}

impl View for Message {
    type V = MsgView;

    closed spec fn view(&self) -> MsgView {
        MsgView {
            source: match self.source {
                Some(is) => Some(is.spec_extract(self.buf@)),
                None => None,
            },
            command: self.command.spec_extract(self.buf@),
            params: Seq::new(self.params@.len(), |i: int| span_bytes(self.buf@, self.params@[i])),
            trailer: self.trailer,
        }
    }
}

impl Message {
    /// The internal invariant: every offset range lies inside the buffer,
    /// and the buffer holds exactly the canonical encoding of the message's
    /// own view — parsing and assembling both end at this shape.
    pub closed spec fn wf(&self) -> bool {
        &&& match self.source {
            Some(is) => is.wf_in(self.buf@.len() as int),
            None => true,
        }
        &&& self.command.wf_in(self.buf@.len() as int)
        &&& forall|j: int| #![auto]
            0 <= j < self.params@.len() ==> span_in(self.params@[j], self.buf@.len() as int)
        &&& self.params@.len() <= u32::MAX as int
        &&& self.buf@ == enc_msg(self@)
        &&& view_wf(self@)
    }

    /// A well-formed message has a well-formed view.
    pub proof fn lemma_wf_view(&self)
        requires
            self.wf(),
        ensures
            view_wf(self@),
    {
    }

    /// Make a new message from provided component parts.
    ///
    /// Succeeds exactly when every part is valid: the source's fields and
    /// the command pass their byte-class checks, every non-trailing
    /// parameter is a non-empty colon-free token, the trailing parameter
    /// (when the trailer flag is set) holds no NUL/CR/LF, and a trailer is
    /// only requested together with at least one parameter.  The first
    /// violated constraint is reported as the error.  A textual command is
    /// folded to uppercase.  The trailer flag is a serialization detail,
    /// preserved for faithful re-encoding; it must never influence how an
    /// incoming message is handled.
    #[verifier::loop_isolation(false)]
    #[verifier::rlimit(80)]
    pub fn assemble(
        source: Option<&Source>,
        command: &Command,
        params: &Vec<Vec<u8>>,
        trailer: bool,
    ) -> (r: Result<Message, AssembleError>)
        requires
            assemble_ok(opt_source_ref_view(source), command@, params_view(params@), trailer)
                ==> enc_msg(
                assembled_view(opt_source_ref_view(source), command@, params_view(params@), trailer),
            ).len() <= u32::MAX as int,
        ensures
            r is Ok <==> assemble_ok(
                opt_source_ref_view(source),
                command@,
                params_view(params@),
                trailer,
            ),
            r matches Ok(m) ==> m.wf() && m@ == assembled_view(
                opt_source_ref_view(source),
                command@,
                params_view(params@),
                trailer,
            ),
            r matches Err(e) ==> e == first_err(
                opt_source_ref_view(source),
                command@,
                params_view(params@),
                trailer,
            ),
    {
        let ghost srcv = opt_source_ref_view(source);
        let ghost psv = params_view(params@);
        let ghost target = assembled_view(srcv, command@, psv, trailer);
        if trailer && params.len() == 0 {
            return Err(AssembleError::TrailerWithoutParams);
        }
        match source {
            Some(src) => match src.validate() {
                Err(e) => return Err(e),
                Ok(()) => {},
            },
            None => {},
        }
        let command_buf = match command.bufferize() {
            Err(e) => return Err(e),
            Ok(b) => b,
        };
        let mut n: usize = 0;
        while n < params.len()
            invariant
                n <= params@.len(),
                psv == params_view(params@),
                forall|j: int| #![auto]
                    0 <= j < n && j < middle_count(psv, trailer) ==> param_ok(psv[j]),
                trailer && n == params@.len() ==> trailing_param_ok(psv.last()),
                !(trailer && params@.len() == 0),
                match srcv {
                    Some(s) => source_ok(s),
                    None => true,
                },
                srcv == opt_source_ref_view(source),
                command_ok(command@),
            decreases params@.len() - n,
        {
            let p = &params[n];
            proof {
                assert(psv[n as int] == params@[n as int]@);
            }
            if trailer && n == params.len() - 1 {
                match validate_trailing_param(p.as_slice()) {
                    Err(e) => return Err(e),
                    Ok(()) => {},
                }
            } else {
                match validate_param(p.as_slice()) {
                    Err(e) => return Err(e),
                    Ok(()) => {},
                }
            }
            n += 1;
        }
        proof {
            assert(assemble_ok(srcv, command@, psv, trailer));
            lemma_fold_command_ok(command@);
        }
        let mut buf: Vec<u8> = Vec::new();
        let interred_source = match source {
            Some(src) => Some(src.inter(&mut buf)),
            None => None,
        };
        proof {
            assert(buf@ =~= enc_source_opt(srcv));
        }
        let ghost b_src = buf@;
        let interred_command = command.inter(command_buf, &mut buf);
        proof {
            assert(buf@.subrange(0, b_src.len() as int) =~= b_src);
            assert(psv.skip(0) =~= psv);
            match interred_source {
                Some(is) => lemma_int_source_stable(is, b_src, buf@),
                None => {},
            }
            assert(buf@ + enc_params(psv.skip(0), trailer) + seq![13u8, 10u8] =~= enc_msg(
                target,
            ));
        }
        let mut spans: Vec<Span> = Vec::new();
        let mut k: usize = 0;
        while k < params.len()
            invariant
                k <= params@.len(),
                psv == params_view(params@),
                psv.len() == params@.len(),
                target == assembled_view(srcv, command@, psv, trailer),
                enc_msg(target).len() <= u32::MAX as int,
                spans@.len() == k,
                buf@ + enc_params(psv.skip(k as int), trailer) + seq![13u8, 10u8] == enc_msg(
                    target,
                ),
                forall|j: int| #![trigger spans@[j]]
                    0 <= j < k ==> span_in(spans@[j], buf@.len() as int) && span_bytes(
                        buf@,
                        spans@[j],
                    ) == psv[j],
                match interred_source {
                    Some(is) => is.wf_in(buf@.len() as int) && srcv == Some(
                        is.spec_extract(buf@),
                    ),
                    None => srcv is None,
                },
                interred_command.wf_in(buf@.len() as int),
                interred_command.spec_extract(buf@) == target.command,
                srcv == opt_source_ref_view(source),
                params_ok(psv, trailer),
                !(trailer && psv.len() == 0),
            decreases params@.len() - k,
        {
            proof {
                assert(psv.skip(k as int)[0] == psv[k as int]);
                if k + 1 < params@.len() {
                    assert(psv.skip(k as int).drop_first() =~= psv.skip(k as int + 1));
                } else {
                    assert(psv.skip(k as int + 1) =~= Seq::<Seq<u8>>::empty());
                }
                assert(psv[k as int] == params@[k as int]@);
            }
            let ghost b_pre = buf@;
            buf.push(32);
            if trailer && k == params.len() - 1 {
                buf.push(58);
            }
            let sp = inter_bytes(&mut buf, params[k].as_slice());
            proof {
                assert(buf@ + enc_params(psv.skip(k as int + 1), trailer) + seq![13u8, 10u8]
                    =~= enc_msg(target));
                assert(buf@.subrange(0, b_pre.len() as int) =~= b_pre);
                assert forall|j: int| 0 <= j < k implies span_in(spans@[j], buf@.len() as int)
                    && span_bytes(buf@, spans@[j]) == psv[j] by {
                    lemma_span_stable(b_pre, buf@, spans@[j]);
                }
                match interred_source {
                    Some(is) => lemma_int_source_stable(is, b_pre, buf@),
                    None => {},
                }
                lemma_int_command_stable(interred_command, b_pre, buf@);
            }
            spans.push(sp);
            k += 1;
        }
        proof {
            assert(psv.skip(params@.len() as int) =~= Seq::<Seq<u8>>::empty());
        }
        let ghost b_body = buf@;
        buf.push(13);
        buf.push(10);
        proof {
            assert(buf@ =~= enc_msg(target));
            assert(buf@.subrange(0, b_body.len() as int) =~= b_body);
            assert forall|j: int| 0 <= j < spans@.len() implies span_in(
                spans@[j],
                buf@.len() as int,
            ) && span_bytes(buf@, spans@[j]) == psv[j] by {
                lemma_span_stable(b_body, buf@, spans@[j]);
            }
            match interred_source {
                Some(is) => lemma_int_source_stable(is, b_body, buf@),
                None => {},
            }
            lemma_int_command_stable(interred_command, b_body, buf@);
            lemma_enc_params_count(psv, trailer);
        }
        let m = Message {
            buf,
            source: interred_source,
            command: interred_command,
            params: spans,
            trailer,
        };
        proof {
            assert(m@.params =~= psv);
            assert(m@ =~~= target);
        }
        Ok(m)
    }

    /// Parse an input line into a message.  The line must have had its
    /// newline stripped, as well as its optional carriage return; the caller
    /// must detect and skip an empty line.  Fails on any grammar violation.
    /// The message holds the canonical re-encoding of the line: runs of
    /// separating spaces collapse to one, tags are dropped, and a textual
    /// command is folded to uppercase.
    #[verifier::loop_isolation(false)]
    pub fn parse(line: &[u8]) -> (r: Option<Message>)
        requires
            line@.len() + 2 <= u32::MAX as int,
        ensures
            match r {
                Some(m) => m.wf() && spec_parse_msg(line@) == Some(m@),
                None => spec_parse_msg(line@) is None,
            },
    {
        let (_tags, line1) = match parse_tags(line) {
            None => return None,
            Some(x) => x,
        };
        let (source, line2) = match Source::parse(line1) {
            None => return None,
            Some(x) => x,
        };
        let (command, line3) = match Command::parse(line2) {
            None => return None,
            Some(x) => x,
        };
        let ghost rest3 = line3@;
        proof {
            lemma_skip_sp_props_of_command_rest(line2@);
        }
        let mut cur: &[u8] = line3;
        let mut params: Vec<Vec<u8>> = Vec::new();
        let mut trailer = false;
        proof {
            match spec_parse_params(rest3) {
                None => {},
                Some((ps, tr)) => {
                    assert(params_view(params@) + ps =~= ps);
                },
            }
        }
        while cur.len() > 0
            invariant
                cur@.len() > 0 ==> cur@[0] != 32,
                trailer ==> spec_parse_params(rest3) == Some((params_view(params@), true))
                    && cur@.len() == 0,
                !trailer ==> match spec_parse_params(cur@) {
                    None => spec_parse_params(rest3) is None,
                    Some((ps, tr)) => spec_parse_params(rest3) == Some(
                        (params_view(params@) + ps, tr),
                    ),
                },
            decreases cur@.len(),
        {
            let ghost params0 = params@;
            if cur[0] == 58 {
                let p = slice_to_vec(slice_subrange(cur, 1, cur.len()));
                params.push(p);
                trailer = true;
                proof {
                    assert(cur@.subrange(1, cur@.len() as int) =~= cur@.drop_first());
                    assert(params_view(params@) =~= params_view(params0) + seq![
                        cur@.drop_first(),
                    ]);
                    match spec_parse_params(rest3) {
                        None => {},
                        Some((ps, tr)) => {
                            assert(params_view(params0) + seq![cur@.drop_first()] =~= params_view(
                                params@,
                            ));
                        },
                    }
                }
                cur = slice_subrange(cur, cur.len(), cur.len());
            } else {
                let split = match find_idx_of_space_or_end(cur) {
                    None => return None,
                    Some(s) => s,
                };
                proof {
                    lemma_find_sp_props(cur@);
                }
                let p = slice_to_vec(slice_subrange(cur, 0, split));
                params.push(p);
                let next = match skip_leading_space(slice_subrange(cur, split, cur.len())) {
                    None => return None,
                    Some(r) => r,
                };
                proof {
                    crate::message::parse::lemma_skip_sp_le(
                        cur@.subrange(split as int, cur@.len() as int),
                    );
                    lemma_skip_sp_props(cur@.subrange(split as int, cur@.len() as int));
                    assert(params_view(params@) =~= params_view(params0) + seq![
                        cur@.subrange(0, split as int),
                    ]);
                    match spec_parse_params(next@) {
                        None => {},
                        Some((ps2, tr2)) => {
                            assert((params_view(params0) + seq![cur@.subrange(0, split as int)])
                                + ps2 =~= params_view(params0) + (seq![
                                cur@.subrange(0, split as int),
                            ] + ps2));
                        },
                    }
                }
                cur = next;
            }
        }
        proof {
            if !trailer {
                match spec_parse_params(rest3) {
                    None => {},
                    Some((ps, tr)) => {
                        assert(params_view(params@) + Seq::<Seq<u8>>::empty() =~= params_view(
                            params@,
                        ));
                    },
                }
            }
            lemma_parse_msg_len(line@);
        }
        let source_ref: Option<&Source> = match &source {
            Some(s) => Some(s),
            None => None,
        };
        match Message::assemble(source_ref, &command, &params, trailer) {
            Ok(m) => Some(m),
            Err(_) => None,
        }
    }

    /// The exact bytes to send over the wire to transmit this message,
    /// including the trailing CR LF.  This is the canonical encoding of the
    /// message's parts.
    pub fn get_raw(&self) -> (r: &[u8])
        requires
            self.wf(),
        ensures
            r@ == enc_msg(self@),
    {
        self.buf.as_slice()
    }

    /// The source (prefix) of the message, if any, copied out of the buffer.
    pub fn get_source(&self) -> (r: Option<Source>)
        requires
            self.wf(),
        ensures
            opt_source_view(r) == self@.source,
    {
        match &self.source {
            Some(is) => Some(is.extract(self.buf.as_slice())),
            None => None,
        }
    }

    /// The command of the message, copied out of the buffer.  A textual
    /// command is always uppercase here.
    pub fn get_command(&self) -> (r: Command)
        requires
            self.wf(),
        ensures
            r@ == self@.command,
    {
        self.command.extract(self.buf.as_slice())
    }

    /// The number of parameters in this message.
    pub fn get_param_count(&self) -> (r: u32)
        requires
            self.wf(),
        ensures
            r == self@.params.len(),
    {
        self.params.len() as u32
    }

    /// The nth parameter, or `None` at and beyond the parameter count.
    pub fn get_nth_param(&self, n: u32) -> (r: Option<&[u8]>)
        requires
            self.wf(),
        ensures
            match r {
                Some(p) => n < self@.params.len() && p@ == self@.params[n as int],
                None => n >= self@.params.len(),
            },
    {
        if (n as usize) < self.params.len() {
            let sp = self.params[n as usize];
            Some(extract_bytes(self.buf.as_slice(), &sp))
        } else {
            None
        }
    }

    /// Whether the last parameter was introduced by a colon.  This is a
    /// serialization detail, preserved only for faithful re-encoding: it
    /// must never influence how an incoming message is handled.
    pub fn has_trailer(&self) -> (r: bool)
        requires
            self.wf(),
        ensures
            r == self@.trailer,
    {
        self.trailer
    }
}

/// What the rest of the line looks like after the command's separating
/// spaces were skipped: it never starts with a space.
proof fn lemma_skip_sp_props_of_command_rest(line: Seq<u8>)
    ensures
        match spec_parse_command(line) {
            Some((c, rest)) => rest.len() > 0 ==> rest[0] != 32,
            None => true,
        },
{
    if line.len() == 0 {
    } else {
        match spec_find_sp(line) {
            None => {},
            Some(split) => {
                lemma_find_sp_props(line);
                lemma_skip_sp_props(line.subrange(split, line.len() as int));
            },
        }
    }
}

} // verus!
