//! The round-trip law: parsing the encoded form of a well-formed message
//! yields exactly the message's own parts.

use vstd::prelude::*;
use vstd::arithmetic::div_mod::{lemma_fundamental_div_mod, lemma_mod_mod};

use crate::message::model::{
    assembled_view, cmd_bytes, command_ok, enc_body, enc_msg, enc_params, enc_source,
    middle_count, numeric_digits, params_ok, roundtrip_safe, source_ok, spec_parse_command,
    spec_parse_msg, spec_parse_params, spec_parse_source, three_digit_token, view_wf, MsgView,
    SpecCommand, SpecSource,
};
use crate::message::parse::{
    lemma_check_host_clean, lemma_find_sp_found, lemma_skip_sp_found, lemma_split_nick_clean,
    lemma_split_nick_delim, lemma_split_user_delim, param_ok, spec_digit_val, spec_is_digit,
    spec_is_nulcrlfspace, spec_is_nulcrlfspaceatbang,
};

verus! {

/// The three digits of a numeric command are digits, and they decode back to
/// the command's number.
proof fn lemma_numeric_digits_value(n: u32)
    requires
        1 <= n <= 999,
    ensures
        numeric_digits(n).len() == 3,
        spec_is_digit(numeric_digits(n)[0]),
        spec_is_digit(numeric_digits(n)[1]),
        spec_is_digit(numeric_digits(n)[2]),
        spec_digit_val(numeric_digits(n)[0]) * 100 + spec_digit_val(numeric_digits(n)[1]) * 10
            + spec_digit_val(numeric_digits(n)[2]) == n,
{
    lemma_fundamental_div_mod(n as int, 100);
    lemma_fundamental_div_mod((n as int) % 100, 10);
    lemma_mod_mod(n as int, 10, 10);
}

/// The bytes of a valid command are non-empty and free of NUL, CR, space,
/// colon at the front (for a safe command) and `@` at the front.
proof fn lemma_cmd_bytes_clean(c: SpecCommand)
    requires
        command_ok(c),
    ensures
        cmd_bytes(c).len() > 0,
        forall|i: int| #![auto]
            0 <= i < cmd_bytes(c).len() ==> cmd_bytes(c)[i] != 0 && cmd_bytes(c)[i] != 13
                && cmd_bytes(c)[i] != 32,
        c is Numeric ==> cmd_bytes(c)[0] != 58 && cmd_bytes(c)[0] != 64,
{
    match c {
        SpecCommand::Numeric(n) => {
            lemma_numeric_digits_value(n);
        },
        SpecCommand::Textual(t) => {},
    }
}

/// The encoded parameter region of a non-empty parameter list starts with a
/// space, and what follows that space starts with a byte no scan stops at.
proof fn lemma_enc_params_head(ps: Seq<Seq<u8>>, tr: bool)
    requires
        ps.len() > 0,
        params_ok(ps, tr),
    ensures
        enc_params(ps, tr).len() > 1,
        enc_params(ps, tr)[0] == 32,
        enc_params(ps, tr)[1] != 32 && enc_params(ps, tr)[1] != 0 && enc_params(ps, tr)[1]
            != 13,
{
    if ps.len() == 1 {
        if tr {
        } else {
            assert(param_ok(ps[0]));
            assert(!spec_is_nulcrlfspace(ps[0][0]));
        }
    } else {
        assert(param_ok(ps[0]));
        assert(!spec_is_nulcrlfspace(ps[0][0]));
    }
}

/// Parsing the parameter region (after its first separating space) of a
/// valid parameter list yields exactly that list and trailer flag.
proof fn lemma_params_roundtrip(ps: Seq<Seq<u8>>, tr: bool)
    requires
        ps.len() > 0,
        params_ok(ps, tr),
    ensures
        spec_parse_params(enc_params(ps, tr).drop_first()) == Some((ps, tr)),
    decreases ps.len(),
{
    let enc = enc_params(ps, tr);
    let line = enc.drop_first();
    reveal_with_fuel(spec_parse_params, 3);
    if ps.len() == 1 {
        if tr {
            assert(line =~= seq![58u8] + ps[0]);
            assert(line[0] == 58);
            assert(line.drop_first() =~= ps[0]);
            assert(seq![ps[0]] =~= ps);
            assert(spec_parse_params(line) == Some((ps, tr)));
        } else {
            assert(param_ok(ps[0]));
            assert(line =~= ps[0]);
            assert forall|j: int| 0 <= j < line.len() implies line[j] != 0 && line[j] != 13
                && line[j] != 32 by {
                assert(!spec_is_nulcrlfspace(ps[0][j]));
            }
            lemma_find_sp_found(line, line.len() as int);
            assert(line.subrange(line.len() as int, line.len() as int)
                =~= Seq::<u8>::empty());
            lemma_skip_sp_found(Seq::<u8>::empty(), 0);
            assert(line.subrange(0, line.len() as int) =~= ps[0]);
            assert(seq![ps[0]] + Seq::<Seq<u8>>::empty() =~= ps);
            assert(spec_parse_params(line) == Some((ps, tr)));
        }
    } else {
        let p0 = ps[0];
        let rest = ps.drop_first();
        let enc_rest = enc_params(rest, tr);
        assert(param_ok(p0));
        assert(line =~= p0 + enc_rest);
        // the rest of the list is still valid
        assert(params_ok(rest, tr)) by {
            assert forall|i: int| 0 <= i < middle_count(rest, tr) implies param_ok(
                rest[i],
            ) by {
                assert(rest[i] == ps[i + 1]);
            }
            if tr {
                assert(rest.last() == ps.last());
            }
        }
        lemma_enc_params_head(rest, tr);
        // the first token ends exactly at the space that starts `enc_rest`
        assert forall|j: int| 0 <= j < p0.len() implies line[j] != 0 && line[j] != 13
            && line[j] != 32 by {
            assert(line[j] == p0[j]);
            assert(!spec_is_nulcrlfspace(p0[j]));
        }
        assert(line[p0.len() as int] == enc_rest[0]);
        lemma_find_sp_found(line, p0.len() as int);
        let tail = line.subrange(p0.len() as int, line.len() as int);
        assert(tail =~= enc_rest);
        lemma_skip_sp_found(tail, 1);
        assert(tail.subrange(1, tail.len() as int) =~= enc_rest.drop_first());
        lemma_params_roundtrip(rest, tr);
        assert(line.subrange(0, p0.len() as int) =~= p0);
        assert(line[0] == p0[0]);
        assert(line[0] != 58);
        assert(seq![p0] + rest =~= ps);
        assert(spec_parse_params(line) == Some((ps, tr)));
    }
}

/// Parsing the front of a line that starts with an encoded valid source
/// yields exactly that source and the rest of the line.
#[verifier::rlimit(80)]
proof fn lemma_source_roundtrip(s: SpecSource, rest: Seq<u8>)
    requires
        source_ok(s),
        rest.len() > 0,
        rest[0] != 32 && rest[0] != 0 && rest[0] != 13,
    ensures
        spec_parse_source(enc_source(s) + rest) == Some((Some(s), rest)),
{
    let body = enc_source(s) + rest;
    match s {
        SpecSource::Server { name } => {
            let split = name.len() as int + 1;
            assert(body =~= seq![58u8] + name + seq![32u8] + rest);
            assert forall|j: int| 0 <= j < split implies body[j] != 0 && body[j] != 13
                && body[j] != 32 by {
                if j >= 1 {
                    assert(body[j] == name[j - 1]);
                    assert(!spec_is_nulcrlfspaceatbang(name[j - 1]));
                }
            }
            assert(body[split] == 32);
            lemma_find_sp_found(body, split);
            let tail = body.subrange(split, body.len() as int);
            assert(tail =~= seq![32u8] + rest);
            lemma_skip_sp_found(tail, 1);
            assert(tail.subrange(1, tail.len() as int) =~= rest);
            let tok = body.subrange(1, split);
            assert(tok =~= name);
            assert forall|j: int| 0 <= j < tok.len() implies tok[j] != 0 && tok[j] != 13
                && tok[j] != 64 && tok[j] != 33 by {
                assert(!spec_is_nulcrlfspaceatbang(name[j]));
            }
            lemma_split_nick_clean(tok);
        },
        SpecSource::Client { nick, user, host } => {
            match user {
                None => {
                    let inner = nick + seq![64u8] + host;
                    let split = inner.len() as int + 1;
                    assert(body =~= seq![58u8] + inner + seq![32u8] + rest);
                    assert forall|j: int| 0 <= j < inner.len() implies inner[j] != 0
                        && inner[j] != 13 && inner[j] != 32 by {
                        if j < nick.len() {
                            assert(inner[j] == nick[j]);
                            assert(!spec_is_nulcrlfspaceatbang(nick[j]));
                        } else if j == nick.len() {
                            assert(inner[j] == 64);
                        } else {
                            assert(inner[j] == host[j - nick.len() - 1]);
                            assert(!spec_is_nulcrlfspaceatbang(host[j - nick.len() - 1]));
                        }
                    }
                    assert forall|j: int| 0 <= j < split implies body[j] != 0 && body[j] != 13
                        && body[j] != 32 by {
                        if j >= 1 {
                            assert(body[j] == inner[j - 1]);
                        }
                    }
                    assert(body[split] == 32);
                    lemma_find_sp_found(body, split);
                    let tail = body.subrange(split, body.len() as int);
                    assert(tail =~= seq![32u8] + rest);
                    lemma_skip_sp_found(tail, 1);
                    assert(tail.subrange(1, tail.len() as int) =~= rest);
                    let tok = body.subrange(1, split);
                    assert(tok =~= inner);
                    assert forall|j: int| 0 <= j < nick.len() implies tok[j] != 0 && tok[j]
                        != 13 && tok[j] != 64 && tok[j] != 33 by {
                        assert(tok[j] == nick[j]);
                        assert(!spec_is_nulcrlfspaceatbang(nick[j]));
                    }
                    assert(tok[nick.len() as int] == 64);
                    lemma_split_nick_delim(tok, nick.len() as int);
                    assert(tok.subrange(0, nick.len() as int) =~= nick);
                    let after = tok.subrange(nick.len() as int + 1, tok.len() as int);
                    assert(after =~= host);
                    assert forall|j: int| 0 <= j < after.len() implies after[j] != 0
                        && after[j] != 13 && after[j] != 64 && after[j] != 33 by {
                        assert(!spec_is_nulcrlfspaceatbang(host[j]));
                    }
                    lemma_check_host_clean(after);
                },
                Some(u) => {
                    let inner = nick + seq![33u8] + u + seq![64u8] + host;
                    let split = inner.len() as int + 1;
                    assert(body =~= seq![58u8] + inner + seq![32u8] + rest);
                    let nl = nick.len() as int;
                    let ul = u.len() as int;
                    assert forall|j: int| 0 <= j < inner.len() implies inner[j] != 0
                        && inner[j] != 13 && inner[j] != 32 by {
                        if j < nl {
                            assert(inner[j] == nick[j]);
                            assert(!spec_is_nulcrlfspaceatbang(nick[j]));
                        } else if j == nl {
                            assert(inner[j] == 33);
                        } else if j < nl + 1 + ul {
                            assert(inner[j] == u[j - nl - 1]);
                            assert(!spec_is_nulcrlfspaceatbang(u[j - nl - 1]));
                        } else if j == nl + 1 + ul {
                            assert(inner[j] == 64);
                        } else {
                            assert(inner[j] == host[j - nl - ul - 2]);
                            assert(!spec_is_nulcrlfspaceatbang(host[j - nl - ul - 2]));
                        }
                    }
                    assert forall|j: int| 0 <= j < split implies body[j] != 0 && body[j] != 13
                        && body[j] != 32 by {
                        if j >= 1 {
                            assert(body[j] == inner[j - 1]);
                        }
                    }
                    assert(body[split] == 32);
                    lemma_find_sp_found(body, split);
                    let tail = body.subrange(split, body.len() as int);
                    assert(tail =~= seq![32u8] + rest);
                    lemma_skip_sp_found(tail, 1);
                    assert(tail.subrange(1, tail.len() as int) =~= rest);
                    let tok = body.subrange(1, split);
                    assert(tok =~= inner);
                    assert forall|j: int| 0 <= j < nl implies tok[j] != 0 && tok[j] != 13
                        && tok[j] != 64 && tok[j] != 33 by {
                        assert(tok[j] == nick[j]);
                        assert(!spec_is_nulcrlfspaceatbang(nick[j]));
                    }
                    assert(tok[nl] == 33);
                    lemma_split_nick_delim(tok, nl);
                    assert(tok.subrange(0, nl) =~= nick);
                    let after = tok.subrange(nl + 1, tok.len() as int);
                    assert(after =~= u + seq![64u8] + host);
                    assert forall|j: int| 0 <= j < ul implies after[j] != 0 && after[j] != 13
                        && after[j] != 64 && after[j] != 33 by {
                        assert(after[j] == u[j]);
                        assert(!spec_is_nulcrlfspaceatbang(u[j]));
                    }
                    assert(after[ul] == 64);
                    lemma_split_user_delim(after, ul);
                    assert(after.subrange(0, ul) =~= u);
                    let after2 = after.subrange(ul + 1, after.len() as int);
                    assert(after2 =~= host);
                    assert forall|j: int| 0 <= j < after2.len() implies after2[j] != 0
                        && after2[j] != 13 && after2[j] != 64 && after2[j] != 33 by {
                        assert(!spec_is_nulcrlfspaceatbang(host[j]));
                    }
                    lemma_check_host_clean(after2);
                },
            }
        },
    }
}

/// Parsing the command token of a valid, round-trip-safe command followed by
/// the encoded parameter region yields exactly that command.
proof fn lemma_command_roundtrip(c: SpecCommand, tail: Seq<u8>)
    requires
        command_ok(c),
        match c {
            SpecCommand::Numeric(_) => true,
            SpecCommand::Textual(t) => !three_digit_token(t),
        },
        tail.len() > 0 ==> tail.len() > 1 && tail[0] == 32 && tail[1] != 32 && tail[1] != 0
            && tail[1] != 13,
    ensures
        spec_parse_command(cmd_bytes(c) + tail) == Some(
            (
                c,
                if tail.len() == 0 {
                    tail
                } else {
                    tail.drop_first()
                },
            ),
        ),
{
    let cb = cmd_bytes(c);
    let line = cb + tail;
    lemma_cmd_bytes_clean(c);
    assert forall|j: int| 0 <= j < cb.len() implies line[j] != 0 && line[j] != 13 && line[j]
        != 32 by {
        assert(line[j] == cb[j]);
    }
    if tail.len() == 0 {
        assert(line =~= cb);
        lemma_find_sp_found(line, cb.len() as int);
        assert(line.subrange(cb.len() as int, line.len() as int) =~= Seq::<u8>::empty());
        lemma_skip_sp_found(Seq::<u8>::empty(), 0);
    } else {
        assert(line[cb.len() as int] == 32);
        lemma_find_sp_found(line, cb.len() as int);
        let t2 = line.subrange(cb.len() as int, line.len() as int);
        assert(t2 =~= tail);
        lemma_skip_sp_found(t2, 1);
        assert(t2.subrange(1, t2.len() as int) =~= tail.drop_first());
    }
    let tok = line.subrange(0, cb.len() as int);
    assert(tok =~= cb);
    match c {
        SpecCommand::Numeric(n) => {
            lemma_numeric_digits_value(n);
        },
        SpecCommand::Textual(t) => {},
    }
}

/// The round-trip law.  For every well-formed, round-trip-safe message view,
/// parsing the encoded body (the wire bytes without their CR LF terminator)
/// succeeds and yields exactly the same view.  Together with the contracts
/// of `assemble`, `get_raw` and `parse`, this says: assembling a message,
/// taking its raw bytes, stripping CR LF and parsing them again gives a
/// message with the identical source, command, parameter sequence and
/// trailer flag.
pub proof fn lemma_round_trip(v: MsgView)
    requires
        view_wf(v),
        roundtrip_safe(v),
    ensures
        enc_msg(v) == enc_body(v) + seq![13u8, 10u8],
        spec_parse_msg(enc_body(v)) == Some(v),
{
    let body = enc_body(v);
    let cb = cmd_bytes(v.command);
    let ep = enc_params(v.params, v.trailer);
    lemma_cmd_bytes_clean(v.command);
    if v.params.len() > 0 {
        lemma_enc_params_head(v.params, v.trailer);
    }
    let cmd_rest = cb + ep;
    assert(cmd_rest[0] == cb[0]);
    match v.source {
        None => {
            assert(body =~= cmd_rest);
            assert(body[0] != 64 && body[0] != 58) by {
                match v.command {
                    SpecCommand::Numeric(n) => {
                        lemma_numeric_digits_value(n);
                    },
                    SpecCommand::Textual(t) => {},
                }
            }
            // no tags, no source
            assert(spec_parse_source(body) == Some((None::<SpecSource>, body)));
        },
        Some(s) => {
            assert(body =~= enc_source(s) + cmd_rest);
            assert(body[0] == 58);
            lemma_source_roundtrip(s, cmd_rest);
        },
    }
    lemma_command_roundtrip(v.command, ep);
    if v.params.len() == 0 {
        assert(!v.trailer);
        assert(ep =~= Seq::<u8>::empty());
        assert(spec_parse_params(ep) == Some((Seq::<Seq<u8>>::empty(), false)));
        assert(Seq::<Seq<u8>>::empty() =~= v.params);
    } else {
        lemma_params_roundtrip(v.params, v.trailer);
    }
    assert(assembled_view(v.source, v.command, v.params, v.trailer) =~~= v) by {
        match v.command {
            SpecCommand::Numeric(_) => {},
            SpecCommand::Textual(t) => {},
        }
    }
}

} // verus!
