use ritsu::message::{Message, MessageType, ParseError, MESSAGE_LEN_MAX};

#[test]
fn message_test_test_message_type_to_str() {
    assert_eq!(MessageType::Join.as_str(), "JOIN");
    assert_eq!(MessageType::Ready.as_str(), "READY");
    assert_eq!(MessageType::Done.as_str(), "DONE");
    assert_eq!(MessageType::Exit.as_str(), "EXIT");
    assert_eq!(MessageType::Joined.as_str(), "JOINED");
    assert_eq!(MessageType::Start.as_str(), "START");
    assert_eq!(MessageType::Okay.as_str(), "OK");
    assert_eq!(MessageType::Skip.as_str(), "SKIP");
    assert_eq!(MessageType::Late.as_str(), "LATE");
    assert_eq!(MessageType::Error.as_str(), "ERROR");
}

#[test]
fn message_test_test_message_type_from_str() {
    assert_eq!(MessageType::from_str("JOIN"), Ok(MessageType::Join));
    assert_eq!(MessageType::from_str("READY"), Ok(MessageType::Ready));
    assert_eq!(MessageType::from_str("DONE"), Ok(MessageType::Done));
    assert_eq!(MessageType::from_str("EXIT"), Ok(MessageType::Exit));
    assert_eq!(MessageType::from_str("JOINED"), Ok(MessageType::Joined));
    assert_eq!(MessageType::from_str("START"), Ok(MessageType::Start));
    assert_eq!(MessageType::from_str("OK"), Ok(MessageType::Okay));
    assert_eq!(MessageType::from_str("SKIP"), Ok(MessageType::Skip));
    assert_eq!(MessageType::from_str("LATE"), Ok(MessageType::Late));
    assert_eq!(MessageType::from_str("ERROR"), Ok(MessageType::Error));
    assert_eq!(MessageType::from_str("INVALID"), Err(ParseError::TypeNotFound));
}

#[test]
fn message_test_test_message_new_no_extras() {
    let message_type = MessageType::Ready;
    let message_id = 0;
    let client_id = 10;

    let result = Message::new(message_type, message_id, client_id, None);

    assert!(result.is_ok());
    let message = result.unwrap();
    assert_eq!(message.mtype, MessageType::Ready);
    assert_eq!(message.mid, 0);
    assert_eq!(message.cid, 10);
    assert_eq!(message.extras, Vec::<(String, String)>::new());
}

#[test]
fn message_test_test_message_new_with_extras() {
    let message_type = MessageType::Ready;
    let message_id = 1;
    let client_id = 10;
    let extras = Some(vec![
        ("key1".to_string(), "val1".to_string()),
        ("key2".to_string(), "val2".to_string()),
    ]);

    let result = Message::new(message_type, message_id, client_id, extras);

    assert!(result.is_ok());
    let message = result.unwrap();
    assert_eq!(message.mtype, MessageType::Ready);
    assert_eq!(message.cid, 10);
    assert_eq!(
        message.extras,
        vec![
            ("key1".to_string(), "val1".to_string()),
            ("key2".to_string(), "val2".to_string()),
        ]
    );
}

#[test]
fn test_message_new_invalid_message_id() {
    let message_type = MessageType::Done;
    let message_id = 10;
    let client_id = 10;
    let extras = Some(vec![("k".to_string(), "v".to_string())]);

    let result = Message::new(message_type, message_id, client_id, extras);

    assert!(result.is_err());
    assert_eq!(result.unwrap_err(), ParseError::InvalidMessageId);
}

#[test]
fn message_test_test_message_new_invalid_client_id() {
    let message_type = MessageType::Done;
    let message_id = 1;
    let client_id = 1000;
    let extras = Some(vec![("k".to_string(), "v".to_string())]);

    let result = Message::new(message_type, message_id, client_id, extras);

    assert!(result.is_err());
    assert_eq!(result.unwrap_err(), ParseError::InvalidClientId);
}

#[test]
fn test_message_get_set_extra() {
    let mut message = Message::new(MessageType::Ready, 0, 10, None).unwrap();
    assert_eq!(message.get_extra("key1"), None);

    message.set_extra("key1", "val1");
    assert_eq!(message.get_extra("key1"), Some(&"val1".to_string()));

    message.set_extra("key1", "val2");
    assert_eq!(message.get_extra("key1"), Some(&"val2".to_string()));

    message.set_extra("key2", "val3");
    assert_eq!(message.get_extra("key2"), Some(&"val3".to_string()));
    assert_eq!(message.extras.len(), 2);
}

#[test]
fn message_test_test_message_from_str_no_extras() {
    {
        let msg = "READY@0:100";
        let msg = Message::from_str(msg);
        assert!(msg.is_ok());

        let msg = msg.unwrap();
        assert_eq!(msg.mtype, MessageType::Ready);
        assert_eq!(msg.mid, 0);
        assert_eq!(msg.cid, 100);
        assert_eq!(msg.extras.len(), 0);
    }
    {
        let msg = "READY@9:100,";
        let msg = Message::from_str(msg);
        assert!(msg.is_ok());

        let msg = msg.unwrap();
        assert_eq!(msg.mtype, MessageType::Ready);
        assert_eq!(msg.mid, 9);
        assert_eq!(msg.cid, 100);
        assert_eq!(msg.extras.len(), 0);
    }
}

#[test]
fn message_test_test_message_from_str_with_extras() {
    let msg = "READY@1:000,key1=val1,key2=val2,key3";
    let msg = Message::from_str(msg);
    assert!(msg.is_ok());

    let msg = msg.unwrap();
    assert_eq!(msg.mtype, MessageType::Ready);
    assert_eq!(msg.mid, 1);
    assert_eq!(msg.cid, 0);
    assert_eq!(msg.extras.len(), 3);
    assert_eq!(msg.extras[0], ("key1".to_string(), "val1".to_string()));
    assert_eq!(msg.extras[1], ("key2".to_string(), "val2".to_string()));
    assert_eq!(msg.extras[2], ("key3".to_string(), "".to_string()));
}

#[test]
fn message_test_test_message_from_str_errors() {
    {
        let msg = "abcdefg";
        let msg = Message::from_str(msg);
        assert!(msg.is_err());
        assert_eq!(msg.unwrap_err(), ParseError::TypeNotFound);
    }
    {
        let msg = "READY";
        let msg = Message::from_str(msg);
        assert!(msg.is_err());
        assert_eq!(msg.unwrap_err(), ParseError::TypeNotFound);
    }
    {
        let msg = "UNKNOWN@1:000";
        let msg = Message::from_str(msg);
        assert!(msg.is_err());
        assert_eq!(msg.unwrap_err(), ParseError::TypeNotFound);
    }
    {
        let msg = "xx:";
        let msg = Message::from_str(msg);
        assert!(msg.is_err());
        assert_eq!(msg.unwrap_err(), ParseError::MessageIdNotFound);
    }
    {
        let msg = "READY:";
        let msg = Message::from_str(msg);
        assert!(msg.is_err());
        assert_eq!(msg.unwrap_err(), ParseError::MessageIdNotFound);
    }
    {
        let msg = "READY@:000";
        let msg = Message::from_str(msg);
        assert!(msg.is_err());
        assert_eq!(msg.unwrap_err(), ParseError::InvalidMessageId);
    }
    {
        let msg = "READY@12:000";
        let msg = Message::from_str(msg);
        assert!(msg.is_err());
        assert_eq!(msg.unwrap_err(), ParseError::InvalidMessageId);
    }
    {
        let msg = "READY@X:000";
        let msg = Message::from_str(msg);
        assert!(msg.is_err());
        assert_eq!(msg.unwrap_err(), ParseError::InvalidMessageId);
    }
    {
        let msg = "READY@1:";
        let msg = Message::from_str(msg);
        assert!(msg.is_err());
        assert_eq!(msg.unwrap_err(), ParseError::InvalidClientId);
    }
    {
        let msg = "READY@1:1";
        let msg = Message::from_str(msg);
        assert!(msg.is_err());
        assert_eq!(msg.unwrap_err(), ParseError::InvalidClientId);
    }
    {
        let msg = "READY@1:1234";
        let msg = Message::from_str(msg);
        assert!(msg.is_err());
        assert_eq!(msg.unwrap_err(), ParseError::InvalidClientId);
    }
    {
        let msg = "READY@1:abc";
        let msg = Message::from_str(msg);
        assert!(msg.is_err());
        assert_eq!(msg.unwrap_err(), ParseError::InvalidClientId);
    }
    {
        let msg = format!("READY@1:000,{}", "0".repeat(MESSAGE_LEN_MAX + 1));
        let msg = Message::from_str(&msg);
        assert!(msg.is_err());
        assert_eq!(msg.unwrap_err(), ParseError::MessageTooLong);
    }
}

#[test]
fn message_test_test_message_to_str_no_extras() {
    let message = Message {
        mtype: MessageType::Ready,
        mid: 0,
        cid: 123,
        extras: vec![],
    };
    assert_eq!(message.to_str().unwrap(), "READY@0:123".to_string());
}

#[test]
fn message_test_test_message_to_str_with_extras() {
    let message = Message {
        mtype: MessageType::Done,
        mid: 1,
        cid: 456,
        extras: vec![
            ("key1".to_string(), "val1".to_string()),
            ("key2".to_string(), "val2".to_string()),
            ("key3".to_string(), "".to_string()),
        ],
    };
    assert_eq!(
        message.to_str().unwrap(),
        "DONE@1:456,key1=val1,key2=val2,key3".to_string()
    );
}

#[test]
fn test_message_to_str_invalid_msg_id() {
    let message = Message {
        mtype: MessageType::Exit,
        mid: 10,
        cid: 123,
        extras: vec![],
    };
    assert!(message.to_str().is_err());
    assert_eq!(message.to_str().unwrap_err(), ParseError::InvalidMessageId);
}

#[test]
fn message_test_test_message_to_str_invalid_client_id() {
    let message = Message {
        mtype: MessageType::Exit,
        mid: 9,
        cid: 1000,
        extras: vec![],
    };
    assert!(message.to_str().is_err());
    assert_eq!(message.to_str().unwrap_err(), ParseError::InvalidClientId);
}

#[test]
fn message_test_test_message_to_str_too_long() {
    let message = Message {
        mtype: MessageType::Exit,
        mid: 0,
        cid: 999,
        extras: vec![("k".to_string(), "a".to_string().repeat(MESSAGE_LEN_MAX + 1))],
    };
    assert!(message.to_str().is_err());
    assert_eq!(message.to_str().unwrap_err(), ParseError::MessageTooLong);
}

// ---------------------------------------------------------------------------

#[test]
fn message_roundtrip_keeps_fields() {
    let sent = Message::new(
        MessageType::Start,
        7,
        42,
        Some(vec![
            ("cycle".to_string(), "12".to_string()),
            ("flag".to_string(), "".to_string()),
            ("".to_string(), "v".to_string()),
        ]),
    )
    .unwrap();
    let text = sent.to_str().unwrap();
    assert_eq!(text, "START@7:042,cycle=12,flag,=v");
    let back = Message::from_str(&text).unwrap();
    assert_eq!(back.mtype, MessageType::Start);
    assert_eq!(back.mid, 7);
    assert_eq!(back.cid, 42);
    assert_eq!(back.extras, sent.extras);
}

#[test]
fn message_from_str_plus_sign_client_id() {
    let msg = Message::from_str("DONE@3:+12").unwrap();
    assert_eq!(msg.cid, 12);
    assert_eq!(msg.mid, 3);
}

#[test]
fn message_from_str_value_with_equals() {
    let msg = Message::from_str("READY@1:001,a=b=c,,x").unwrap();
    assert_eq!(
        msg.extras,
        vec![
            ("a".to_string(), "b=c".to_string()),
            ("x".to_string(), "".to_string()),
        ]
    );
}

#[test]
fn message_from_str_length_limit_is_bytes() {
    let exact = format!("READY@1:000,{}", "0".repeat(MESSAGE_LEN_MAX - 12));
    assert_eq!(exact.len(), MESSAGE_LEN_MAX);
    assert!(Message::from_str(&exact).is_ok());
    let over = format!("READY@1:000,{}", "é".repeat(251));
    assert!(over.len() > MESSAGE_LEN_MAX);
    assert_eq!(Message::from_str(&over).unwrap_err(), ParseError::MessageTooLong);
}

#[test]
fn message_set_extra_keeps_first_match() {
    let mut message = Message::new(
        MessageType::Ready,
        0,
        1,
        Some(vec![
            ("k".to_string(), "1".to_string()),
            ("k".to_string(), "2".to_string()),
        ]),
    )
    .unwrap();
    message.set_extra("k", "3");
    assert_eq!(message.extras[0].1, "3");
    assert_eq!(message.extras[1].1, "2");
    assert_eq!(message.get_extra("k"), Some(&"3".to_string()));
}

#[test]
fn message_type_text_round_trip() {
    let all = [
        MessageType::Join,
        MessageType::Ready,
        MessageType::Done,
        MessageType::Exit,
        MessageType::Joined,
        MessageType::Start,
        MessageType::Okay,
        MessageType::Skip,
        MessageType::Late,
        MessageType::Error,
    ];
    for t in all {
        assert!(MessageType::from_str(t.as_str()) == Ok(t));
    }
    assert!(MessageType::from_str("join").is_err());
    assert!(MessageType::from_str("").is_err());
}
