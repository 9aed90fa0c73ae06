use foxy_ircd::case::{downcase, upcase};
use foxy_ircd::message::parse::{
    find_idx_of_space_or_end, is_nulcrlf, is_nulcrlfspace, is_nulcrlfspaceatbang, parse_digit,
    parse_source_host, parse_source_name_or_nick, parse_source_user, parse_tags,
    skip_leading_space, validate_param, validate_trailing_param,
};
use foxy_ircd::message::{AssembleError, Command, Message, Source};

fn no_params() -> Vec<Vec<u8>> {
    vec![]
}

fn one_param(p: &[u8]) -> Vec<Vec<u8>> {
    vec![p.to_vec()]
}

#[test]
fn numeric_formatting() {
    let message = Message::assemble(None, &Command::Numeric(5), &no_params(), false).unwrap();
    assert_eq!(message.get_raw(), b"005\r\n");
    assert_eq!(
        Message::assemble(None, &Command::Numeric(0), &no_params(), false).unwrap_err(),
        AssembleError::InvalidCommandNumber
    );
    assert_eq!(
        Message::assemble(None, &Command::Numeric(1000), &no_params(), false).unwrap_err(),
        AssembleError::InvalidCommandNumber
    );
    let message = Message::assemble(None, &Command::Numeric(999), &no_params(), false).unwrap();
    assert_eq!(message.get_raw(), b"999\r\n");
}

#[test]
fn case_normalization() {
    let message = Message::assemble(
        None,
        &Command::Textual(b"privMsg".to_vec()),
        &one_param(b"x"),
        false,
    )
    .unwrap();
    assert_eq!(message.get_raw(), b"PRIVMSG x\r\n");
    assert_eq!(message.get_command(), Command::Textual(b"PRIVMSG".to_vec()));
}

#[test]
fn round_trip_of_assembled_messages() {
    let cases: Vec<(Option<Source>, Command, Vec<Vec<u8>>, bool)> = vec![
        (None, Command::Textual(b"quit".to_vec()), vec![], false),
        (
            Some(Source::Server {
                name: b"irc.example.com".to_vec(),
            }),
            Command::Numeric(1),
            vec![b"nick".to_vec(), b"Welcome!".to_vec()],
            true,
        ),
        (
            Some(Source::Client {
                nick: b"n".to_vec(),
                user: Some(b"u".to_vec()),
                host: b"h".to_vec(),
            }),
            Command::Textual(b"PRIVMSG".to_vec()),
            vec![b"#chan".to_vec(), b"".to_vec()],
            true,
        ),
        (
            Some(Source::Client {
                nick: b"n".to_vec(),
                user: None,
                host: b"h".to_vec(),
            }),
            Command::Textual(b"MODE".to_vec()),
            vec![b"#chan".to_vec(), b"+o".to_vec(), b"n".to_vec()],
            false,
        ),
    ];
    for (source, command, params, trailer) in cases {
        let m1 = Message::assemble(source.as_ref(), &command, &params, trailer).unwrap();
        let raw = m1.get_raw().to_vec();
        assert_eq!(&raw[raw.len() - 2..], b"\r\n");
        let m2 = Message::parse(&raw[..raw.len() - 2]).unwrap();
        assert_eq!(m1.get_source(), m2.get_source());
        assert_eq!(m1.get_command(), m2.get_command());
        assert_eq!(m1.has_trailer(), m2.has_trailer());
        assert_eq!(m1.get_param_count(), m2.get_param_count());
        for n in 0..m1.get_param_count() {
            assert_eq!(m1.get_nth_param(n), m2.get_nth_param(n));
        }
        assert_eq!(m2.get_raw(), &raw[..]);
    }
}

#[test]
fn trailer_flag_fidelity() {
    let with = Message::assemble(
        None,
        &Command::Textual(b"FOO".to_vec()),
        &one_param(b"x"),
        true,
    )
    .unwrap();
    let without = Message::assemble(
        None,
        &Command::Textual(b"FOO".to_vec()),
        &one_param(b"x"),
        false,
    )
    .unwrap();
    assert!(with.has_trailer());
    assert!(!without.has_trailer());
    assert_eq!(with.get_raw(), b"FOO :x\r\n");
    assert_eq!(without.get_raw(), b"FOO x\r\n");
    assert_eq!(with.get_nth_param(0), without.get_nth_param(0));
}

#[test]
fn empty_trailer_param() {
    let message = Message::assemble(
        None,
        &Command::Textual(b"FOO".to_vec()),
        &one_param(b""),
        true,
    )
    .unwrap();
    assert_eq!(message.get_raw(), b"FOO :\r\n");
    let parsed = Message::parse(b"FOO :").unwrap();
    assert_eq!(parsed.get_param_count(), 1);
    assert_eq!(parsed.get_nth_param(0).unwrap(), b"");
    assert!(parsed.has_trailer());
}

#[test]
fn every_assembly_error() {
    let foo = || Command::Textual(b"FOO".to_vec());
    assert_eq!(
        Message::assemble(
            Some(&Source::Server {
                name: b"a b".to_vec()
            }),
            &foo(),
            &no_params(),
            false
        )
        .unwrap_err(),
        AssembleError::InvalidServerName
    );
    assert_eq!(
        Message::assemble(
            Some(&Source::Client {
                nick: b"a@b".to_vec(),
                user: None,
                host: b"h".to_vec()
            }),
            &foo(),
            &no_params(),
            false
        )
        .unwrap_err(),
        AssembleError::InvalidNick
    );
    assert_eq!(
        Message::assemble(
            Some(&Source::Client {
                nick: b"n".to_vec(),
                user: Some(b"u!u".to_vec()),
                host: b"h".to_vec()
            }),
            &foo(),
            &no_params(),
            false
        )
        .unwrap_err(),
        AssembleError::InvalidUser
    );
    assert_eq!(
        Message::assemble(
            Some(&Source::Client {
                nick: b"n".to_vec(),
                user: None,
                host: b"h\rh".to_vec()
            }),
            &foo(),
            &no_params(),
            false
        )
        .unwrap_err(),
        AssembleError::InvalidHost
    );
    assert_eq!(
        Message::assemble(None, &Command::Numeric(0), &no_params(), false).unwrap_err(),
        AssembleError::InvalidCommandNumber
    );
    assert_eq!(
        Message::assemble(None, &Command::Textual(b"F O".to_vec()), &no_params(), false)
            .unwrap_err(),
        AssembleError::InvalidCommandName
    );
    assert_eq!(
        Message::assemble(None, &Command::Textual(b"".to_vec()), &no_params(), false)
            .unwrap_err(),
        AssembleError::InvalidCommandName
    );
    assert_eq!(
        Message::assemble(None, &foo(), &one_param(b":x"), false).unwrap_err(),
        AssembleError::InvalidParam
    );
    assert_eq!(
        Message::assemble(None, &foo(), &one_param(b""), false).unwrap_err(),
        AssembleError::InvalidParam
    );
    assert_eq!(
        Message::assemble(None, &foo(), &one_param(b"a\nb"), true).unwrap_err(),
        AssembleError::InvalidTrailingParam
    );
    assert_eq!(
        Message::assemble(None, &foo(), &no_params(), true).unwrap_err(),
        AssembleError::TrailerWithoutParams
    );
}

#[test]
fn parse_collapses_spaces_and_skips_tags() {
    let message = Message::parse(b"FOO   a   b").unwrap();
    assert_eq!(message.get_raw(), b"FOO a b\r\n");
    assert_eq!(message.get_param_count(), 2);
    let tagged = Message::parse(b"@id=1;x  FOO a").unwrap();
    assert_eq!(tagged.get_raw(), b"FOO a\r\n");
}

#[test]
fn parse_rejects_malformed_lines() {
    assert!(Message::parse(b"").is_none());
    assert!(Message::parse(b"   ").is_none());
    assert!(Message::parse(b":server.only").is_none());
    assert!(Message::parse(b"000").is_none());
    assert!(Message::parse(b"FOO a\rb").is_none());
    assert!(Message::parse(b"FOO \x00").is_none());
    assert!(Message::parse(b":nick!user FOO").is_none());
}

#[test]
fn parse_source_forms() {
    let server = Message::parse(b":irc.example.com PING").unwrap();
    assert_eq!(
        server.get_source(),
        Some(Source::Server {
            name: b"irc.example.com".to_vec()
        })
    );
    let nick_host = Message::parse(b":n@h PING").unwrap();
    assert_eq!(
        nick_host.get_source(),
        Some(Source::Client {
            nick: b"n".to_vec(),
            user: None,
            host: b"h".to_vec()
        })
    );
    let full = Message::parse(b":n!u@h PING").unwrap();
    assert_eq!(
        full.get_source(),
        Some(Source::Client {
            nick: b"n".to_vec(),
            user: Some(b"u".to_vec()),
            host: b"h".to_vec()
        })
    );
}

#[test]
fn parse_does_not_fold_already_lowercase_to_error() {
    // parsing canonicalizes: a lowercase command is stored folded
    let message = Message::parse(b"privmsg #c :hi").unwrap();
    assert_eq!(message.get_command(), Command::Textual(b"PRIVMSG".to_vec()));
    assert_eq!(message.get_raw(), b"PRIVMSG #c :hi\r\n");
}

#[test]
fn case_mapping_bytes() {
    assert_eq!(upcase(b'a'), b'A');
    assert_eq!(upcase(b'z'), b'Z');
    assert_eq!(upcase(b'A'), b'A');
    assert_eq!(upcase(b'0'), b'0');
    assert_eq!(upcase(b'{'), b'{');
    assert_eq!(downcase(b'A'), b'a');
    assert_eq!(downcase(b'Z'), b'z');
    assert_eq!(downcase(b'a'), b'a');
    assert_eq!(downcase(b'-'), b'-');
}

#[test]
fn byte_questions() {
    assert!(is_nulcrlf(0) && is_nulcrlf(b'\r') && is_nulcrlf(b'\n'));
    assert!(!is_nulcrlf(b' ') && !is_nulcrlf(b'a'));
    assert!(is_nulcrlfspace(b' ') && !is_nulcrlfspace(b'@'));
    assert!(is_nulcrlfspaceatbang(b'@') && is_nulcrlfspaceatbang(b'!'));
    assert!(!is_nulcrlfspaceatbang(b'.'));
}

#[test]
fn scanner_primitives() {
    assert_eq!(find_idx_of_space_or_end(b"ab cd"), Some(2));
    assert_eq!(find_idx_of_space_or_end(b"abcd"), Some(4));
    assert_eq!(find_idx_of_space_or_end(b""), Some(0));
    assert_eq!(find_idx_of_space_or_end(b"a\rb"), None);
    assert_eq!(find_idx_of_space_or_end(b"a\x00b"), None);
    assert_eq!(skip_leading_space(b"   x y"), Some(&b"x y"[..]));
    assert_eq!(skip_leading_space(b"x"), Some(&b"x"[..]));
    assert_eq!(skip_leading_space(b"   "), Some(&b""[..]));
    assert_eq!(skip_leading_space(b"  \rx"), None);
    assert_eq!(parse_digit(b'0'), Some(0));
    assert_eq!(parse_digit(b'9'), Some(9));
    assert_eq!(parse_digit(b'a'), None);
    assert_eq!(parse_digit(b'/'), None);
}

#[test]
fn scanner_source_tokens() {
    assert_eq!(
        parse_source_name_or_nick(b"nick!rest"),
        Some((&b"nick"[..], b'!', &b"rest"[..]))
    );
    assert_eq!(
        parse_source_name_or_nick(b"nick@host"),
        Some((&b"nick"[..], b'@', &b"host"[..]))
    );
    assert_eq!(
        parse_source_name_or_nick(b"server.name"),
        Some((&b"server.name"[..], b' ', &b""[..]))
    );
    assert_eq!(parse_source_name_or_nick(b"a\rb"), None);
    assert_eq!(
        parse_source_user(b"user@host"),
        Some((&b"user"[..], b'@', &b"host"[..]))
    );
    assert_eq!(parse_source_user(b"user!host"), None);
    assert_eq!(parse_source_host(b"host"), Some((&b"host"[..], &b""[..])));
    assert_eq!(parse_source_host(b"ho@st"), None);
    assert_eq!(
        parse_tags(b"@a;b rest"),
        Some((Some(&b"a;b"[..]), &b"rest"[..]))
    );
    assert_eq!(parse_tags(b"rest"), Some((None, &b"rest"[..])));
}

#[test]
fn param_validation() {
    assert!(validate_param(b"ok").is_ok());
    assert_eq!(validate_param(b""), Err(AssembleError::InvalidParam));
    assert_eq!(validate_param(b":x"), Err(AssembleError::InvalidParam));
    assert_eq!(validate_param(b"a b"), Err(AssembleError::InvalidParam));
    assert!(validate_trailing_param(b"spaces and :colons ok").is_ok());
    assert!(validate_trailing_param(b"").is_ok());
    assert_eq!(
        validate_trailing_param(b"a\rb"),
        Err(AssembleError::InvalidTrailingParam)
    );
}

#[test]
fn nth_param_beyond_count() {
    let message = Message::parse(b"FOO a b").unwrap();
    assert_eq!(message.get_param_count(), 2);
    assert_eq!(message.get_nth_param(0).unwrap(), b"a");
    assert_eq!(message.get_nth_param(1).unwrap(), b"b");
    assert!(message.get_nth_param(2).is_none());
    assert!(message.get_nth_param(1000).is_none());
}

#[test]
fn error_reasons_are_named() {
    assert_eq!(
        AssembleError::InvalidServerName.reason(),
        "invalid character in server prefix"
    );
    assert_eq!(
        AssembleError::InvalidNick.reason(),
        "invalid character in client nickname"
    );
    assert_eq!(
        AssembleError::TrailerWithoutParams.reason(),
        "trailer requested with no parameters"
    );
}
