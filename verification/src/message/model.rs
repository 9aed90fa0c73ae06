//! The mathematical model of a message: view types, validity, the canonical
//! wire encoding, and the grammar as a function over byte sequences.
//!
//! Every contract of the codec is stated over these definitions.  A message
//! value's view is a [`MsgView`]; assembling writes `enc_msg` of that view,
//! and parsing is `spec_parse_msg` of the input line.

use vstd::prelude::*;

use crate::case::{fold_upper, is_folded_upper};
use crate::message::AssembleError;
use crate::message::parse::{
    param_ok, spec_find_sp, spec_is_nulcrlfspace, spec_is_nulcrlfspaceatbang,
    spec_check_host, spec_digit_val, spec_is_digit, spec_parse_tags, spec_skip_sp,
    spec_split_nick, spec_split_user, trailing_param_ok, lemma_find_sp_props, lemma_skip_sp_le,
};

verus! {

// ---------------------------------------------------------------------------
// Views
// ---------------------------------------------------------------------------

/// The source (prefix) of a message, as a mathematical value.
#[verifier::ext_equal]
pub enum SpecSource {
    /// The message came from a server.
    Server { name: Seq<u8> },
    /// The message came from a client.
    Client { nick: Seq<u8>, user: Option<Seq<u8>>, host: Seq<u8> },
}

/// The command of a message, as a mathematical value.
#[verifier::ext_equal]
pub enum SpecCommand {
    /// A numeric command, 1 through 999.
    Numeric(u32),
    /// A textual command.
    Textual(Seq<u8>),
}

/// Everything a message says: its source, command, parameter sequence and
/// trailer flag.
#[verifier::ext_equal]
pub struct MsgView {
    pub source: Option<SpecSource>,
    pub command: SpecCommand,
    pub params: Seq<Seq<u8>>,
    pub trailer: bool,
}

// ---------------------------------------------------------------------------
// Validity
// ---------------------------------------------------------------------------

/// A source field may not hold NUL, CR, LF, a space, `@` or `!`: those are
/// structural delimiters.
pub open spec fn source_field_ok(s: Seq<u8>) -> bool {
    forall|i: int| #![auto] 0 <= i < s.len() ==> !spec_is_nulcrlfspaceatbang(s[i])
}

/// Every field of the source is clean of structural delimiter bytes.
pub open spec fn source_ok(s: SpecSource) -> bool {
    match s {
        SpecSource::Server { name } => source_field_ok(name),
        SpecSource::Client { nick, user, host } => {
            &&& source_field_ok(nick)
            &&& match user {
                Some(u) => source_field_ok(u),
                None => true,
            }
            &&& source_field_ok(host)
        },
    }
}

/// A numeric command lies in 1 through 999; a textual command is a non-empty
/// token without NUL, CR, LF or a space.
pub open spec fn command_ok(c: SpecCommand) -> bool {
    match c {
        SpecCommand::Numeric(n) => 1 <= n <= 999,
        SpecCommand::Textual(t) => t.len() > 0 && forall|i: int| #![auto]
            0 <= i < t.len() ==> !spec_is_nulcrlfspace(t[i]),
    }
}

/// How many parameters are held to the non-trailing rule.
pub open spec fn middle_count(ps: Seq<Seq<u8>>, trailer: bool) -> int {
    if trailer {
        ps.len() - 1
    } else {
        ps.len() as int
    }
}

/// Every non-trailing parameter is valid, and the trailing one (when the
/// trailer flag is set) holds no NUL, CR or LF.
pub open spec fn params_ok(ps: Seq<Seq<u8>>, trailer: bool) -> bool {
    &&& forall|i: int| #![auto] 0 <= i < middle_count(ps, trailer) ==> param_ok(ps[i])
    &&& (trailer ==> ps.len() > 0 && trailing_param_ok(ps.last()))
}

/// All of assembly's validation in one place: a trailer needs at least one
/// parameter, the source and command are valid, and so is every parameter.
pub open spec fn assemble_ok(
    src: Option<SpecSource>,
    c: SpecCommand,
    ps: Seq<Seq<u8>>,
    trailer: bool,
) -> bool {
    &&& !(trailer && ps.len() == 0)
    &&& match src {
        Some(s) => source_ok(s),
        None => true,
    }
    &&& command_ok(c)
    &&& params_ok(ps, trailer)
}

/// Assembly folds a textual command to uppercase before storing it.
pub open spec fn fold_command(c: SpecCommand) -> SpecCommand {
    match c {
        SpecCommand::Numeric(n) => SpecCommand::Numeric(n),
        SpecCommand::Textual(t) => SpecCommand::Textual(fold_upper(t)),
    }
}

/// The view of the message that assembling the given parts produces.
pub open spec fn assembled_view(
    src: Option<SpecSource>,
    c: SpecCommand,
    ps: Seq<Seq<u8>>,
    trailer: bool,
) -> MsgView {
    MsgView { source: src, command: fold_command(c), params: ps, trailer }
}

/// What holds of the view of every message: its parts are valid, its command
/// is already folded, and its encoding fits the 32-bit offset encoding.
pub open spec fn view_wf(v: MsgView) -> bool {
    &&& assemble_ok(v.source, v.command, v.params, v.trailer)
    &&& match v.command {
        SpecCommand::Numeric(_) => true,
        SpecCommand::Textual(t) => is_folded_upper(t),
    }
    &&& enc_msg(v).len() <= u32::MAX as int
}

// ---------------------------------------------------------------------------
// The first violated constraint
// ---------------------------------------------------------------------------

/// The reason reported for an invalid source: its fields are checked in
/// order.
pub open spec fn source_first_err(s: SpecSource) -> AssembleError {
    match s {
        SpecSource::Server { name } => AssembleError::InvalidServerName,
        SpecSource::Client { nick, user, host } => {
            if !source_field_ok(nick) {
                AssembleError::InvalidNick
            } else {
                match user {
                    Some(u) => if !source_field_ok(u) {
                        AssembleError::InvalidUser
                    } else {
                        AssembleError::InvalidHost
                    },
                    None => AssembleError::InvalidHost,
                }
            }
        },
    }
}

/// The reason reported for an invalid command.
pub open spec fn command_first_err(c: SpecCommand) -> AssembleError {
    match c {
        SpecCommand::Numeric(_) => AssembleError::InvalidCommandNumber,
        SpecCommand::Textual(_) => AssembleError::InvalidCommandName,
    }
}

/// The reason reported for an invalid parameter list: parameters are checked
/// in order, the trailing one last.
pub open spec fn params_first_err(ps: Seq<Seq<u8>>, trailer: bool) -> AssembleError {
    if exists|i: int| #![auto] 0 <= i < middle_count(ps, trailer) && !param_ok(ps[i]) {
        AssembleError::InvalidParam
    } else {
        AssembleError::InvalidTrailingParam
    }
}

/// The reason assembly reports for the first violated constraint, in the
/// order the constraints are checked: trailer misuse, then the source's
/// fields, then the command, then the parameters.
pub open spec fn first_err(
    src: Option<SpecSource>,
    c: SpecCommand,
    ps: Seq<Seq<u8>>,
    trailer: bool,
) -> AssembleError {
    if trailer && ps.len() == 0 {
        AssembleError::TrailerWithoutParams
    } else {
        match src {
            Some(s) => if !source_ok(s) {
                source_first_err(s)
            } else {
                later_err(c, ps, trailer)
            },
            None => later_err(c, ps, trailer),
        }
    }
}

/// The first violated constraint after the source was found valid.
pub open spec fn later_err(c: SpecCommand, ps: Seq<Seq<u8>>, trailer: bool) -> AssembleError {
    if !command_ok(c) {
        command_first_err(c)
    } else {
        params_first_err(ps, trailer)
    }
}

// ---------------------------------------------------------------------------
// The canonical encoding
// ---------------------------------------------------------------------------

/// A numeric command encodes as exactly three zero-padded decimal digits.
pub open spec fn numeric_digits(n: u32) -> Seq<u8> {
    seq![
        (48 + n / 100) as u8,
        (48 + (n % 100) / 10) as u8,
        (48 + n % 10) as u8,
    ]
}

/// The bytes a (stored, already folded) command encodes to.
pub open spec fn cmd_bytes(c: SpecCommand) -> Seq<u8> {
    match c {
        SpecCommand::Numeric(n) => numeric_digits(n),
        SpecCommand::Textual(t) => t,
    }
}

/// The bytes a source encodes to: a leading colon, the fields with their
/// `!` and `@` separators, and a trailing space.
pub open spec fn enc_source(s: SpecSource) -> Seq<u8> {
    match s {
        SpecSource::Server { name } => seq![58u8] + name + seq![32u8],
        SpecSource::Client { nick, user, host } => match user {
            Some(u) => seq![58u8] + nick + seq![33u8] + u + seq![64u8] + host + seq![32u8],
            None => seq![58u8] + nick + seq![64u8] + host + seq![32u8],
        },
    }
}

/// The bytes of the leading source region: empty when there is no source.
pub open spec fn enc_source_opt(src: Option<SpecSource>) -> Seq<u8> {
    match src {
        Some(s) => enc_source(s),
        None => Seq::<u8>::empty(),
    }
}

/// The bytes the parameter region encodes to: each parameter preceded by one
/// space, the last one also by a colon when the trailer flag is set.
pub open spec fn enc_params(ps: Seq<Seq<u8>>, trailer: bool) -> Seq<u8>
    decreases ps.len(),
{
    if ps.len() == 0 {
        Seq::<u8>::empty()
    } else if ps.len() == 1 {
        (if trailer {
            seq![32u8, 58u8]
        } else {
            seq![32u8]
        }) + ps[0]
    } else {
        seq![32u8] + ps[0] + enc_params(ps.drop_first(), trailer)
    }
}

/// The whole line before the terminator.
pub open spec fn enc_body(v: MsgView) -> Seq<u8> {
    enc_source_opt(v.source) + cmd_bytes(v.command) + enc_params(v.params, v.trailer)
}

/// The exact wire bytes of a message: its body followed by CR LF.
pub open spec fn enc_msg(v: MsgView) -> Seq<u8> {
    enc_body(v) + seq![13u8, 10u8]
}

/// Case normalization: the command a message stores — and therefore the
/// command region of the line it encodes to — never holds a lowercase ASCII
/// byte, whatever the case of the command assembly was given, and folding it
/// again changes nothing.
pub proof fn lemma_case_normalization(c: SpecCommand)
    ensures
        match fold_command(c) {
            SpecCommand::Numeric(_) => true,
            SpecCommand::Textual(t) => t.len() == cmd_bytes(fold_command(c)).len()
                && forall|i: int| #![trigger t[i]] 0 <= i < t.len() ==> !(97 <= t[i] <= 122),
        },
        fold_command(fold_command(c)) == fold_command(c),
{
    match c {
        SpecCommand::Numeric(_) => {},
        SpecCommand::Textual(t) => {
            crate::case::lemma_fold_upper_uppercase(t);
            crate::case::lemma_fold_upper_idempotent(t);
        },
    }
}

/// A token of exactly three ASCII digits: what parsing reads as a numeric
/// command.
pub open spec fn three_digit_token(t: Seq<u8>) -> bool {
    t.len() == 3 && spec_is_digit(t[0]) && spec_is_digit(t[1]) && spec_is_digit(t[2])
}

/// A message round-trips byte-exactly unless its textual command collides
/// with another piece of the grammar: a three-digit textual command reads
/// back as a numeric one, and without a source a textual command starting
/// with `:` or `@` reads back as a source or a tag region.
pub open spec fn roundtrip_safe(v: MsgView) -> bool {
    match v.command {
        SpecCommand::Numeric(_) => true,
        SpecCommand::Textual(t) => !three_digit_token(t) && (v.source is None ==> t.len() > 0
            && t[0] != 58 && t[0] != 64),
    }
}

/// Folding a valid textual command keeps it valid (folding maps `a`-`z` to
/// `A`-`Z` and touches nothing else), and folding is idempotent.
pub proof fn lemma_fold_command_ok(c: SpecCommand)
    requires
        command_ok(c),
    ensures
        command_ok(fold_command(c)),
        fold_command(fold_command(c)) == fold_command(c),
{
    match c {
        SpecCommand::Numeric(_) => {},
        SpecCommand::Textual(t) => {
            crate::case::lemma_fold_upper_idempotent(t);
            assert(forall|i: int| #![auto]
                0 <= i < t.len() ==> !spec_is_nulcrlfspace(fold_upper(t)[i]));
        },
    }
}

/// The parameter region is at least one byte (the separator) per parameter.
pub proof fn lemma_enc_params_count(ps: Seq<Seq<u8>>, trailer: bool)
    ensures
        enc_params(ps, trailer).len() >= ps.len(),
    decreases ps.len(),
{
    if ps.len() <= 1 {
    } else {
        lemma_enc_params_count(ps.drop_first(), trailer);
    }
}

// ---------------------------------------------------------------------------
// The grammar, as a function over byte sequences
// ---------------------------------------------------------------------------

/// Parse the optional source region: a line not starting with a colon has no
/// source; otherwise the prefix token splits on its first `@` or `!`.
pub open spec fn spec_parse_source(line: Seq<u8>) -> Option<(Option<SpecSource>, Seq<u8>)> {
    if line.len() == 0 || line[0] != 58 {
        Some((None, line))
    } else {
        match spec_find_sp(line) {
            None => None,
            Some(split) => match spec_skip_sp(line.subrange(split, line.len() as int)) {
                None => None,
                Some(rest) => {
                    let tok = line.subrange(1, split);
                    match spec_split_nick(tok) {
                        None => None,
                        Some((first, d, after)) => {
                            if d == 32 {
                                Some((Some(SpecSource::Server { name: first }), rest))
                            } else if d == 33 {
                                match spec_split_user(after) {
                                    None => None,
                                    Some((user, d2, after2)) => {
                                        if d2 == 64 {
                                            match spec_check_host(after2) {
                                                None => None,
                                                Some(host) => Some((
                                                    Some(SpecSource::Client {
                                                        nick: first,
                                                        user: Some(user),
                                                        host,
                                                    }),
                                                    rest,
                                                )),
                                            }
                                        } else {
                                            None
                                        }
                                    },
                                }
                            } else {
                                match spec_check_host(after) {
                                    None => None,
                                    Some(host) => Some((
                                        Some(SpecSource::Client {
                                            nick: first,
                                            user: None,
                                            host,
                                        }),
                                        rest,
                                    )),
                                }
                            }
                        },
                    }
                },
            },
        }
    }
}

/// Parse the command token: exactly three ASCII digits make a numeric
/// command, any other token is textual (not folded during parsing).
pub open spec fn spec_parse_command(line: Seq<u8>) -> Option<(SpecCommand, Seq<u8>)> {
    if line.len() == 0 {
        None
    } else {
        match spec_find_sp(line) {
            None => None,
            Some(split) => match spec_skip_sp(line.subrange(split, line.len() as int)) {
                None => None,
                Some(rest) => {
                    let tok = line.subrange(0, split);
                    if tok.len() == 3 && spec_is_digit(tok[0]) && spec_is_digit(tok[1])
                        && spec_is_digit(tok[2]) {
                        Some((
                            SpecCommand::Numeric(
                                (spec_digit_val(tok[0]) * 100 + spec_digit_val(tok[1]) * 10
                                    + spec_digit_val(tok[2])) as u32,
                            ),
                            rest,
                        ))
                    } else {
                        Some((SpecCommand::Textual(tok), rest))
                    }
                },
            },
        }
    }
}

/// Parse the parameter region: tokens separated by runs of spaces; a leading
/// colon makes the rest of the line the final, trailing parameter.
pub open spec fn spec_parse_params(line: Seq<u8>) -> Option<(Seq<Seq<u8>>, bool)>
    decreases line.len(),
    via spec_parse_params_dec
{
    if line.len() == 0 {
        Some((Seq::<Seq<u8>>::empty(), false))
    } else if line[0] == 58 {
        Some((seq![line.drop_first()], true))
    } else {
        match spec_find_sp(line) {
            None => None,
            Some(split) => match spec_skip_sp(line.subrange(split, line.len() as int)) {
                None => None,
                Some(rest) => match spec_parse_params(rest) {
                    None => None,
                    Some((ps, tr)) => Some((seq![line.subrange(0, split)] + ps, tr)),
                },
            },
        }
    }
}

#[via_fn]
proof fn spec_parse_params_dec(line: Seq<u8>) {
    lemma_find_sp_props(line);
    if line.len() > 0 && line[0] != 58 {
        match spec_find_sp(line) {
            Some(split) => {
                lemma_skip_sp_le(line.subrange(split, line.len() as int));
                if split == 0 {
                    assert(line.subrange(0, line.len() as int) =~= line);
                }
            },
            None => {},
        }
    }
}

/// Parse a whole line (terminator already stripped): skip any tag region,
/// then the source, the command and the parameters, and accept the result
/// exactly when assembling those parts would.
pub open spec fn spec_parse_msg(line: Seq<u8>) -> Option<MsgView> {
    match spec_parse_tags(line) {
        None => None,
        Some((tags, rest1)) => match spec_parse_source(rest1) {
            None => None,
            Some((src, rest2)) => match spec_parse_command(rest2) {
                None => None,
                Some((c, rest3)) => match spec_parse_params(rest3) {
                    None => None,
                    Some((ps, tr)) => if assemble_ok(src, c, ps, tr) {
                        Some(assembled_view(src, c, ps, tr))
                    } else {
                        None
                    },
                },
            },
        },
    }
}

// ---------------------------------------------------------------------------
// Length accounting: what a parsed line can encode to
// ---------------------------------------------------------------------------

/// Skipping tags never lengthens the line.
pub proof fn lemma_parse_tags_len(line: Seq<u8>)
    ensures
        match spec_parse_tags(line) {
            Some((tags, rest)) => rest.len() <= line.len(),
            None => true,
        },
{
    if line.len() == 0 || line[0] != 64 {
    } else {
        lemma_find_sp_props(line);
        match spec_find_sp(line) {
            None => {},
            Some(split) => {
                lemma_skip_sp_le(line.subrange(split, line.len() as int));
            },
        }
    }
}

/// A parsed source, followed by anything at all, re-encodes into no more
/// bytes than it consumed: the separating space pays for the leading colon.
pub proof fn lemma_parse_source_len(line: Seq<u8>)
    ensures
        match spec_parse_source(line) {
            Some((src, rest)) => rest.len() > 0 ==> enc_source_opt(src).len() + rest.len()
                <= line.len(),
            None => true,
        },
{
    if line.len() == 0 || line[0] != 58 {
    } else {
        lemma_find_sp_props(line);
        match spec_find_sp(line) {
            None => {},
            Some(split) => {
                let tail = line.subrange(split, line.len() as int);
                lemma_skip_sp_le(tail);
                match spec_skip_sp(tail) {
                    None => {},
                    Some(rest) => {
                        if rest.len() > 0 {
                            // a space stood at `split`, so the skip was strict
                            assert(split < line.len());
                            assert(tail[0] == 32);
                            assert(rest.len() < tail.len());
                            let tok = line.subrange(1, split);
                            crate::message::parse::lemma_split_nick_props(tok);
                            match spec_split_nick(tok) {
                                None => {},
                                Some((first, d, after)) => {
                                    if d == 32 {
                                        assert(enc_source(SpecSource::Server { name: first })
                                            .len() == split + 1);
                                    } else if d == 33 {
                                        assert(tok.len() == first.len() + 1 + after.len());
                                        crate::message::parse::lemma_split_nick_props(after);
                                        match spec_split_user(after) {
                                            None => {},
                                            Some((user, d2, after2)) => {
                                                if d2 == 64 {
                                                    assert(after.len() == user.len() + 1
                                                        + after2.len());
                                                    crate::message::parse::lemma_check_host_props(
                                                        after2,
                                                    );
                                                }
                                            },
                                        }
                                    } else {
                                        assert(tok.len() == first.len() + 1 + after.len());
                                        crate::message::parse::lemma_check_host_props(after);
                                    }
                                },
                            }
                        }
                    },
                }
            },
        }
    }
}

/// A parsed command re-encodes (even after folding) into no more bytes than
/// it consumed, with one separator byte to spare when anything follows.
pub proof fn lemma_parse_command_len(line: Seq<u8>)
    ensures
        match spec_parse_command(line) {
            Some((c, rest)) => cmd_bytes(fold_command(c)).len() + (
                if rest.len() > 0 {
                    1 + rest.len()
                } else {
                    0
                }) <= line.len(),
            None => true,
        },
{
    if line.len() == 0 {
    } else {
        lemma_find_sp_props(line);
        match spec_find_sp(line) {
            None => {},
            Some(split) => {
                let tail = line.subrange(split, line.len() as int);
                lemma_skip_sp_le(tail);
                assert(split < line.len() ==> tail[0] == 32);
            },
        }
    }
}

/// A parsed parameter region re-encodes into no more bytes than it consumed,
/// counting the one separator byte its caller set aside.
pub proof fn lemma_parse_params_len(line: Seq<u8>)
    ensures
        match spec_parse_params(line) {
            Some((ps, tr)) => enc_params(ps, tr).len() <= (
                if line.len() == 0 {
                    0
                } else {
                    line.len() + 1
                }),
            None => true,
        },
    decreases line.len(),
{
    if line.len() == 0 {
    } else if line[0] == 58 {
    } else {
        lemma_find_sp_props(line);
        match spec_find_sp(line) {
            None => {},
            Some(split) => {
                let tail = line.subrange(split, line.len() as int);
                lemma_skip_sp_le(tail);
                assert(split < line.len() ==> tail[0] == 32);
                match spec_skip_sp(tail) {
                    None => {},
                    Some(rest) => {
                        if split == 0 {
                            assert(line.subrange(0, line.len() as int) =~= line);
                        }
                        lemma_parse_params_len(rest);
                        match spec_parse_params(rest) {
                            None => {},
                            Some((ps, tr)) => {
                                let tok = line.subrange(0, split);
                                let all = seq![tok] + ps;
                                if ps.len() == 0 {
                                    assert(all.len() == 1);
                                    assert(all[0] == tok);
                                } else {
                                    assert(all.drop_first() =~= ps);
                                    assert(all[0] == tok);
                                }
                            },
                        }
                    },
                }
            },
        }
    }
}

/// Whatever a line parses to re-encodes into at most two more bytes than the
/// line itself: the terminator.
pub proof fn lemma_parse_msg_len(line: Seq<u8>)
    ensures
        match spec_parse_msg(line) {
            Some(v) => enc_msg(v).len() <= line.len() + 2,
            None => true,
        },
{
    lemma_parse_tags_len(line);
    match spec_parse_tags(line) {
        None => {},
        Some((tags, rest1)) => {
            lemma_parse_source_len(rest1);
            match spec_parse_source(rest1) {
                None => {},
                Some((src, rest2)) => {
                    lemma_parse_command_len(rest2);
                    match spec_parse_command(rest2) {
                        None => {},
                        Some((c, rest3)) => {
                            assert(rest2.len() > 0);
                            lemma_parse_params_len(rest3);
                        },
                    }
                },
            }
        },
    }
}

} // verus!
