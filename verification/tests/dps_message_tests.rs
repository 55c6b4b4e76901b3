use ritsu::dps_message::message as tagged;
use ritsu::dps_message::{Message, MessageType, ParseError, MESSAGE_LEN_MAX};

#[test]
fn lib_test_test_message_type_to_str() {
    assert_eq!(MessageType::Join.to_str(), "JOIN".to_string());
    assert_eq!(MessageType::Ready.to_str(), "READY".to_string());
    assert_eq!(MessageType::Done.to_str(), "DONE".to_string());
    assert_eq!(MessageType::Exit.to_str(), "EXIT".to_string());
    assert_eq!(MessageType::Okay.to_str(), "OK".to_string());
    assert_eq!(MessageType::Skip.to_str(), "SKIP".to_string());
    assert_eq!(MessageType::Error.to_str(), "ERROR".to_string());
}

#[test]
fn lib_test_test_message_type_from_str() {
    assert_eq!(MessageType::from_str("JOIN"), Ok(MessageType::Join));
    assert_eq!(MessageType::from_str("READY"), Ok(MessageType::Ready));
    assert_eq!(MessageType::from_str("DONE"), Ok(MessageType::Done));
    assert_eq!(MessageType::from_str("EXIT"), Ok(MessageType::Exit));
    assert_eq!(MessageType::from_str("OK"), Ok(MessageType::Okay));
    assert_eq!(MessageType::from_str("SKIP"), Ok(MessageType::Skip));
    assert_eq!(MessageType::from_str("ERROR"), Ok(MessageType::Error));
    assert_eq!(MessageType::from_str("INVALID"), Err(ParseError::TypeNotFound));
}

#[test]
fn lib_test_test_message_new_no_extras() {
    let message_type = MessageType::Ready;
    let client_id = 10;

    let result = Message::new(message_type, client_id, None);

    assert!(result.is_ok());
    let message = result.unwrap();
    assert_eq!(message.mtype, MessageType::Ready);
    assert_eq!(message.cid, 10);
    assert_eq!(message.extras, Vec::<String>::new());
}

#[test]
fn lib_test_test_message_new_with_extras() {
    let message_type = MessageType::Ready;
    let client_id = 10;
    let extras = Some(vec!["extra1".to_string(), "extra2".to_string()]);

    let result = Message::new(message_type, client_id, extras);

    assert!(result.is_ok());
    let message = result.unwrap();
    assert_eq!(message.mtype, MessageType::Ready);
    assert_eq!(message.cid, 10);
    assert_eq!(message.extras, vec!["extra1".to_string(), "extra2".to_string()]);
}

#[test]
fn lib_test_test_message_new_invalid_client_id() {
    let message_type = MessageType::Done;
    let client_id = 1000;
    let extras = Some(vec!["extra1".to_string(), "extra2".to_string()]);

    let result = Message::new(message_type, client_id, extras);

    assert!(result.is_err());
    assert_eq!(result.unwrap_err(), ParseError::InvalidClientId);
}

#[test]
fn lib_test_test_message_from_str_no_extras() {
    {
        let msg = "READY:100";
        let msg = Message::from_msg(msg);
        assert!(msg.is_ok());

        let msg = msg.unwrap();
        assert_eq!(msg.mtype, MessageType::Ready);
        assert_eq!(msg.cid, 100);
        assert_eq!(msg.extras.len(), 0);
    }
    {
        let msg = "READY:100,";
        let msg = Message::from_msg(msg);
        assert!(msg.is_ok());

        let msg = msg.unwrap();
        assert_eq!(msg.mtype, MessageType::Ready);
        assert_eq!(msg.cid, 100);
        assert_eq!(msg.extras.len(), 1);
        assert_eq!(msg.extras[0], String::new());
    }
}

#[test]
fn lib_test_test_message_from_str_with_extras() {
    let msg = "READY:000,ex1,ex2";
    let msg = Message::from_msg(msg);
    assert!(msg.is_ok());

    let msg = msg.unwrap();
    assert_eq!(msg.mtype, MessageType::Ready);
    assert_eq!(msg.cid, 000);
    assert_eq!(msg.extras.len(), 2);
    assert_eq!(msg.extras[0], "ex1");
    assert_eq!(msg.extras[1], "ex2");
}

#[test]
fn lib_test_test_message_from_str_errors() {
    {
        let msg = "abcdefg";
        let msg = Message::from_msg(msg);
        assert!(msg.is_err());
        assert_eq!(msg.unwrap_err(), ParseError::TypeNotFound);
    }
    {
        let msg = "READY";
        let msg = Message::from_msg(msg);
        assert!(msg.is_err());
        assert_eq!(msg.unwrap_err(), ParseError::TypeNotFound);
    }
    {
        let msg = "xx:";
        let msg = Message::from_msg(msg);
        assert!(msg.is_err());
        assert_eq!(msg.unwrap_err(), ParseError::TypeNotFound);
    }
    {
        let msg = "READY:";
        let msg = Message::from_msg(msg);
        assert!(msg.is_err());
        assert_eq!(msg.unwrap_err(), ParseError::InvalidClientId);
    }
    {
        let msg = "READY:1";
        let msg = Message::from_msg(msg);
        assert!(msg.is_err());
        assert_eq!(msg.unwrap_err(), ParseError::InvalidClientId);
    }
    {
        let msg = "READY:1234";
        let msg = Message::from_msg(msg);
        assert!(msg.is_err());
        assert_eq!(msg.unwrap_err(), ParseError::InvalidClientId);
    }
    {
        let msg = format!("READY:000,{}", "0".repeat(MESSAGE_LEN_MAX + 1));
        let msg = Message::from_msg(&msg);
        assert!(msg.is_err());
        assert_eq!(msg.unwrap_err(), ParseError::MessageTooLong);
    }
}

#[test]
fn lib_test_test_message_to_str_no_extras() {
    let message = Message {
        mtype: MessageType::Ready,
        cid: 123,
        extras: vec![],
    };
    assert_eq!(message.to_msg().unwrap(), "READY:123".to_string());
}

#[test]
fn lib_test_test_message_to_str_with_extras() {
    let message = Message {
        mtype: MessageType::Done,
        cid: 456,
        extras: vec!["extra1".to_string(), "extra2".to_string()],
    };
    assert_eq!(message.to_msg().unwrap(), "DONE:456,extra1,extra2".to_string());
}

#[test]
fn lib_test_test_message_to_str_invalid_client_id() {
    let message = Message {
        mtype: MessageType::Exit,
        cid: 1000,
        extras: vec![],
    };
    assert!(message.to_msg().is_err());
    assert_eq!(message.to_msg().unwrap_err(), ParseError::InvalidClientId);
}

#[test]
fn lib_test_test_message_to_str_too_long() {
    let message = Message {
        mtype: MessageType::Exit,
        cid: 999,
        extras: vec!["a".to_string().repeat(MESSAGE_LEN_MAX + 1)],
    };
    assert!(message.to_msg().is_err());
    assert_eq!(message.to_msg().unwrap_err(), ParseError::MessageTooLong);
}

// ---------------------------------------------------------------------------

#[test]
fn dps_message_roundtrip_keeps_fields() {
    let sent = Message::new(
        MessageType::Skip,
        7,
        Some(vec!["a:b".to_string(), "".to_string(), "c".to_string()]),
    )
    .unwrap();
    let text = sent.to_msg().unwrap();
    assert_eq!(text, "SKIP:007,a:b,,c");
    let back = Message::from_msg(&text).unwrap();
    assert_eq!(back.mtype, MessageType::Skip);
    assert_eq!(back.cid, 7);
    assert_eq!(back.extras, sent.extras);
}

#[test]
fn dps_message_unknown_type_and_plus_sign() {
    assert_eq!(Message::from_msg("LATE:001").unwrap_err(), ParseError::TypeNotFound);
    assert_eq!(Message::from_msg("DONE:+42").unwrap().cid, 42);
    assert_eq!(Message::from_msg("DONE:4a2").unwrap_err(), ParseError::InvalidClientId);
}

// The format that carries a message ID.

#[test]
fn tagged_message_parse_and_render() {
    let m = tagged::Message::from_str("LATE@4:017,x,,y").unwrap();
    assert_eq!(m.mtype, tagged::MessageType::Late);
    assert_eq!(m.mid, 4);
    assert_eq!(m.cid, 17);
    assert_eq!(m.extras, vec!["x".to_string(), "".to_string(), "y".to_string()]);
    assert_eq!(m.to_str().unwrap(), "LATE@4:017,x,,y");

    let empty = tagged::Message::new(tagged::MessageType::Okay, 0, 5, None).unwrap();
    assert_eq!(empty.to_str().unwrap(), "OK@0:005");
    assert_eq!(tagged::MessageType::from_str("LATE"), Ok(tagged::MessageType::Late));
    assert_eq!(tagged::MessageType::Exit.to_str(), "EXIT");
}

#[test]
fn tagged_message_errors() {
    assert_eq!(
        tagged::Message::new(tagged::MessageType::Ready, 10, 1, None).unwrap_err(),
        tagged::ParseError::InvalidMessageId
    );
    assert_eq!(
        tagged::Message::new(tagged::MessageType::Ready, 1, 1000, None).unwrap_err(),
        tagged::ParseError::InvalidClientId
    );
    assert_eq!(tagged::Message::from_str("READY").unwrap_err(), tagged::ParseError::TypeNotFound);
    assert_eq!(tagged::Message::from_str("READY:001").unwrap_err(), tagged::ParseError::MessageIdNotFound);
    assert_eq!(tagged::Message::from_str("JOINED@1:001").unwrap_err(), tagged::ParseError::TypeNotFound);
    assert_eq!(tagged::Message::from_str("READY@a:001").unwrap_err(), tagged::ParseError::InvalidMessageId);
    assert_eq!(tagged::Message::from_str("READY@1:01").unwrap_err(), tagged::ParseError::InvalidClientId);
    let long = format!("READY@1:001,{}", "z".repeat(tagged::MESSAGE_LEN_MAX));
    assert_eq!(tagged::Message::from_str(&long).unwrap_err(), tagged::ParseError::MessageTooLong);
    let m = tagged::Message {
        mtype: tagged::MessageType::Done,
        mid: 12,
        cid: 1,
        extras: vec![],
    };
    assert_eq!(m.to_str().unwrap_err(), tagged::ParseError::InvalidMessageId);
    let m = tagged::Message {
        mtype: tagged::MessageType::Done,
        mid: 1,
        cid: 1001,
        extras: vec![],
    };
    assert_eq!(m.to_str().unwrap_err(), tagged::ParseError::InvalidClientId);
    let m = tagged::Message {
        mtype: tagged::MessageType::Done,
        mid: 1,
        cid: 1,
        extras: vec!["q".repeat(tagged::MESSAGE_LEN_MAX)],
    };
    assert_eq!(m.to_str().unwrap_err(), tagged::ParseError::MessageTooLong);
}
