use rodent_redis::commands::{Command, CommandError, CommandInfo};
use rodent_redis::resp::Resp;

fn request(parts: &[&[u8]]) -> Resp {
    Resp::Array(parts.iter().map(|p| Resp::Bulk(p.to_vec())).collect())
}

#[test]
fn find_command_knows_the_table() {
    for (name, arity) in [
        (&b"ping"[..], 1i8),
        (&b"set"[..], 3),
        (&b"get"[..], 2),
        (&b"del"[..], 2),
        (&b"lpush"[..], 3),
        (&b"rpop"[..], 2),
    ] {
        assert_eq!(CommandInfo::find_command(name), Ok(Command(name, arity)));
    }
}

#[test]
fn find_command_is_case_sensitive() {
    assert_eq!(CommandInfo::find_command(b"PING"), Err(CommandError::UnknownCommand(b"PING".to_vec())));
}

#[test]
fn unknown_command_message_names_it() {
    let err = CommandInfo::from_resp(request(&[b"foo", b"bar"])).unwrap_err();
    assert_eq!(err, CommandError::UnknownCommand(b"foo".to_vec()));
    assert_eq!(err.message(), b"ERR unknown command 'foo'".to_vec());
}

#[test]
fn unknown_command_message_hides_invalid_utf8() {
    let err = CommandError::UnknownCommand(vec![0xff, 0xfe]);
    assert_eq!(err.message(), b"ERR unknown command ''".to_vec());
}

#[test]
fn wrong_arity_is_rejected() {
    let err = CommandInfo::from_resp(request(&[b"set", b"key"])).unwrap_err();
    assert_eq!(err, CommandError::WrongArity(b"set".to_vec()));
    assert_eq!(err.message(), b"ERR wrong number of arguments for 'set' command".to_vec());
}

#[test]
fn extra_arguments_are_rejected() {
    let err = CommandInfo::from_resp(request(&[b"get", b"a", b"b"])).unwrap_err();
    assert_eq!(err, CommandError::WrongArity(b"get".to_vec()));
}

#[test]
fn non_array_is_a_protocol_error() {
    let err = CommandInfo::from_resp(Resp::Simple(b"PING".to_vec())).unwrap_err();
    assert_eq!(err, CommandError::Protocol);
    assert_eq!(err.message(), b"ERR Protocol error".to_vec());
    assert_eq!(CommandInfo::from_resp(Resp::Null), Err(CommandError::Protocol));
}

#[test]
fn empty_array_is_a_protocol_error() {
    assert_eq!(CommandInfo::from_resp(Resp::Array(Vec::new())), Err(CommandError::Protocol));
}

#[test]
fn null_element_is_a_protocol_error() {
    let req = Resp::Array(vec![Resp::Bulk(b"get".to_vec()), Resp::Null]);
    assert_eq!(CommandInfo::from_resp(req), Err(CommandError::Protocol));
}

#[test]
fn key_must_be_utf8() {
    let req = Resp::Array(vec![Resp::Bulk(b"get".to_vec()), Resp::Bulk(vec![0xc3, 0x28])]);
    let err = CommandInfo::from_resp(req).unwrap_err();
    assert_eq!(err, CommandError::KeyType);
    assert_eq!(err.message(), b"ERR key type wrong".to_vec());
}

#[test]
fn valid_request_gives_name_key_and_args() {
    let cmd = CommandInfo::from_resp(request(&[b"set", "clé".as_bytes(), &[0xff, 0x00]])).unwrap();
    assert_eq!(cmd.name, b"set".to_vec());
    assert_eq!(cmd.key, "clé".to_string());
    assert_eq!(cmd.args, vec![vec![0xff, 0x00]]);
}

#[test]
fn ping_has_no_key() {
    let cmd = CommandInfo::from_resp(request(&[b"ping"])).unwrap();
    assert_eq!(cmd.name, b"ping".to_vec());
    assert_eq!(cmd.key, String::new());
    assert!(cmd.args.is_empty());
}

#[test]
fn parse_bulks_reads_key_and_args() {
    let mut cmd = CommandInfo::new();
    cmd.parse_bulks(vec![
        Resp::Bulk(b"lpush".to_vec()),
        Resp::Bulk(b"k".to_vec()),
        Resp::Bulk(b"v".to_vec()),
    ])
    .unwrap();
    assert_eq!(cmd.key, "k".to_string());
    assert_eq!(cmd.args, vec![b"v".to_vec()]);
}

#[test]
fn parse_bulks_rejects_non_bulk_argument() {
    let mut cmd = CommandInfo::new();
    let res = cmd.parse_bulks(vec![Resp::Bulk(b"set".to_vec()), Resp::Bulk(b"k".to_vec()), Resp::Integer(3)]);
    assert_eq!(res, Err(CommandError::ArgsType));
    assert_eq!(CommandError::ArgsType.message(), b"ERR args type wrong".to_vec());
}

#[test]
fn slice_to_string_falls_back_to_empty() {
    assert_eq!(CommandInfo::slice_to_string(b"abc"), "abc".to_string());
    assert_eq!(CommandInfo::slice_to_string(&[0xff]), String::new());
}

#[test]
fn new_command_info_is_empty() {
    let cmd = CommandInfo::new();
    assert!(cmd.name.is_empty());
    assert!(cmd.key.is_empty());
    assert!(cmd.args.is_empty());
}
