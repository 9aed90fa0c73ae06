use foxy_ircd::message::{Command, Message, Source};

struct Test {
    name: &'static str,
    raw: &'static [u8],
    source: Option<Source>,
    command: Command,
    params: Vec<Vec<u8>>,
    trailer: bool,
}

fn tests() -> Vec<Test> {
    vec![
        Test {
            name: "Simple Numeric",
            raw: b"314\r\n",
            source: None,
            command: Command::Numeric(314),
            params: vec![],
            trailer: false,
        },
        Test {
            name: "Simple Textual",
            raw: b"FOO\r\n",
            source: None,
            command: Command::Textual(b"FOO".to_vec()),
            params: vec![],
            trailer: false,
        },
        Test {
            name: "Prefixed, Trailer",
            raw: b":irc.example.com 314 TestDood :This is a simple test\r\n",
            source: Some(Source::Server {
                name: b"irc.example.com".to_vec(),
            }),
            command: Command::Numeric(314),
            params: vec![b"TestDood".to_vec(), b"This is a simple test".to_vec()],
            trailer: true,
        },
        Test {
            name: "Mega Trip",
            raw: b":nickName!user@HostName PRIVMSG #not-invalid:name :Eek, a colon!\r\n",
            source: Some(Source::Client {
                nick: b"nickName".to_vec(),
                user: Some(b"user".to_vec()),
                host: b"HostName".to_vec(),
            }),
            command: Command::Textual(b"PRIVMSG".to_vec()),
            params: vec![b"#not-invalid:name".to_vec(), b"Eek, a colon!".to_vec()],
            trailer: true,
        },
    ]
}

fn bad_assemblies() -> Vec<Test> {
    vec![
        Test {
            name: "Bad Source Server",
            raw: b"",
            source: Some(Source::Server {
                name: b"impossible!server".to_vec(),
            }),
            command: Command::Textual(b"FOO".to_vec()),
            params: vec![b"foo".to_vec(), b"foo foo".to_vec()],
            trailer: true,
        },
        Test {
            name: "Bad Source Nick",
            raw: b"",
            source: Some(Source::Client {
                nick: b"Nick Wilde".to_vec(),
                user: None,
                host: b"topia.zoo".to_vec(),
            }),
            command: Command::Textual(b"FOO".to_vec()),
            params: vec![b"foo".to_vec(), b"foo foo".to_vec()],
            trailer: true,
        },
        Test {
            name: "Bad Source User",
            raw: b"",
            source: Some(Source::Client {
                nick: b"NickWilde".to_vec(),
                user: Some(b"n!wilde".to_vec()),
                host: b"topia.zoo".to_vec(),
            }),
            command: Command::Textual(b"FOO".to_vec()),
            params: vec![b"foo".to_vec(), b"foo foo".to_vec()],
            trailer: true,
        },
        Test {
            name: "Bad Source Host",
            raw: b"",
            source: Some(Source::Client {
                nick: b"NickWilde".to_vec(),
                user: None,
                host: b"nwilde@police.zoo".to_vec(),
            }),
            command: Command::Textual(b"FOO".to_vec()),
            params: vec![b"foo".to_vec(), b"foo foo".to_vec()],
            trailer: true,
        },
        Test {
            name: "Bad Command",
            raw: b"",
            source: Some(Source::Client {
                nick: b"NickWilde".to_vec(),
                user: None,
                host: b"topia.zoo".to_vec(),
            }),
            command: Command::Textual(b"FO O".to_vec()),
            params: vec![b"foo".to_vec(), b"foo foo".to_vec()],
            trailer: true,
        },
        Test {
            name: "Bad Param",
            raw: b"",
            source: Some(Source::Client {
                nick: b"NickWilde".to_vec(),
                user: None,
                host: b"topia.zoo".to_vec(),
            }),
            command: Command::Textual(b"FOO".to_vec()),
            params: vec![b":foo".to_vec(), b"foo foo".to_vec()],
            trailer: true,
        },
        Test {
            name: "Missing Trailer",
            raw: b"",
            source: Some(Source::Client {
                nick: b"NickWilde".to_vec(),
                user: None,
                host: b"topia.zoo".to_vec(),
            }),
            command: Command::Textual(b"FOO".to_vec()),
            params: vec![b"foo".to_vec(), b"foo foo".to_vec()],
            trailer: false,
        },
    ]
}

fn check_message(test: &Test, message: &Message, kind: &str) {
    let mut problems = (if test.source == message.get_source() {
        0
    } else {
        println!("Sources don't match!");
        1
    }) + (if test.command == message.get_command() {
        0
    } else {
        println!("Commands don't match!");
        1
    }) + (if test.trailer == message.has_trailer() {
        0
    } else {
        println!("has_trailer doesn't match!");
        1
    });
    if message.get_param_count() as usize != test.params.len() {
        problems += 1;
        println!("Wrong number of params!");
    } else {
        for n in 0..test.params.len() {
            if message.get_nth_param(n as u32).unwrap() != &test.params[n][..] {
                println!("Wrong param!");
                problems += 1;
            }
        }
        assert!(message.get_nth_param(message.get_param_count()).is_none());
    }
    if problems > 0 {
        println!("Expected:");
        println!("\traw: {:?}", String::from_utf8_lossy(test.raw));
        println!("\tsource: {:?}", test.source);
        println!("\tcommand: {:?}", test.command);
        for n in 0..test.params.len() {
            if n == (test.params.len() - 1) && test.trailer {
                println!("\t\t(trailer)");
            }
            println!(
                "\tparams[{}]: {:?}",
                n,
                String::from_utf8_lossy(&test.params[n])
            );
        }
        println!("Got:");
        println!("\traw: {:?}", String::from_utf8_lossy(message.get_raw()));
        println!("\tsource: {:?}", message.get_source());
        println!("\tcommand: {:?}", message.get_command());
        for n in 0..message.get_param_count() {
            if n == (message.get_param_count() - 1) && message.has_trailer() {
                println!("\t\t(trailer)");
            }
            println!(
                "\tparams[{}]: {:?}",
                n,
                String::from_utf8_lossy(message.get_nth_param(n).unwrap())
            );
        }
        panic!("{} test {:?} failed!", kind, test.name);
    }
}

#[test]
fn assemble() {
    for test in tests() {
        let message = Message::assemble(
            test.source.as_ref(),
            &test.command,
            &test.params,
            test.trailer,
        )
        .unwrap();
        check_message(&test, &message, "Assembly");
    }
}

#[test]
fn bad_assembly() {
    for test in bad_assemblies() {
        let message = Message::assemble(
            test.source.as_ref(),
            &test.command,
            &test.params,
            test.trailer,
        );
        if message.is_ok() {
            println!("Test that should have failed:");
            println!("\traw: {:?}", String::from_utf8_lossy(test.raw));
            println!("\tsource: {:?}", test.source);
            println!("\tcommand: {:?}", test.command);
            for n in 0..test.params.len() {
                if n == (test.params.len() - 1) && test.trailer {
                    println!("\t\t(trailer)");
                }
                println!(
                    "\tparams[{}]: {:?}",
                    n,
                    String::from_utf8_lossy(&test.params[n])
                );
            }
            panic!("Bad assembly test {:?} failed!", test.name);
        }
    }
}

#[test]
fn parse() {
    for test in tests() {
        let message = Message::parse(&test.raw[..test.raw.len() - 2]).unwrap();
        check_message(&test, &message, "Parse");
    }
}

#[test]
fn assembled_raw_is_wire_exact() {
    for test in tests() {
        let message = Message::assemble(
            test.source.as_ref(),
            &test.command,
            &test.params,
            test.trailer,
        )
        .unwrap();
        assert_eq!(message.get_raw(), test.raw, "raw bytes for {:?}", test.name);
    }
}
