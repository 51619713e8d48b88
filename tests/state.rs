use solana_program::pubkey::Pubkey;
use solmail::error::MailError;
use solmail::state::{DataLength, Mail, MailAccount};

fn sample_mail() -> Mail {
    Mail {
        id: String::from("00000000-0000-0000-0000-000000000000"),
        from_address: Pubkey::default().to_string(),
        to_address: Pubkey::default().to_string(),
        subject: String::from("Hey Mike"),
        body: String::from("Body text with some characters"),
        sent_date: String::from("9/29/2021, 3:58:02 PM"),
    }
}

fn as_tuple(m: &Mail) -> (String, String, String, String, String, String) {
    (
        m.id.clone(),
        m.from_address.clone(),
        m.to_address.clone(),
        m.subject.clone(),
        m.body.clone(),
        m.sent_date.clone(),
    )
}

#[test]
fn test_mail() {
    let mail = sample_mail();

    let mut temp_slice = [0; 500];

    let bytes = mail.to_bytes();
    temp_slice[..bytes.len()].copy_from_slice(&bytes);

    let mail = Mail::try_from_slice(&temp_slice[..bytes.len()]).unwrap();

    assert_eq!(mail.subject, "Hey Mike");
}

#[test]
fn test_mail_account() {
    let mail = sample_mail();

    let mail_account = MailAccount {
        inbox: vec![mail],
        sent: Vec::new(),
    };

    let mut temp_slice = [0; 500];

    let bytes = mail_account.to_bytes();
    temp_slice[..bytes.len()].copy_from_slice(&bytes);

    let mail_account = MailAccount::try_from_slice(&temp_slice[..bytes.len()]).unwrap();

    assert_eq!(mail_account.inbox[0].subject, "Hey Mike");
}

#[test]
fn test_data_length() {
    let data_length = DataLength { length: 5 };

    let mut temp_slice = [0; 4];

    temp_slice.copy_from_slice(&data_length.to_bytes());

    assert_eq!(temp_slice, [5, 0, 0, 0]);

    let data_length = DataLength::try_from_slice(&temp_slice[..4]).unwrap();

    assert_eq!(data_length.length, 5);
}

#[test]
fn data_length_is_little_endian() {
    assert_eq!(DataLength { length: 0x0403_0201 }.to_bytes(), vec![1, 2, 3, 4]);
    assert_eq!(DataLength::try_from_slice(&[0xff, 0, 0, 1]).unwrap().length, 0x0100_00ff);
    assert_eq!(
        DataLength::try_from_slice(&[1, 2, 3]).err(),
        Some(MailError::MalformedRecord)
    );
}

#[test]
fn mail_bytes_match_borsh_layout() {
    let mail = sample_mail();
    assert_eq!(mail.to_bytes(), borsh::to_vec(&as_tuple(&mail)).unwrap());
}

#[test]
fn mail_field_layout_exact() {
    let mail = Mail {
        id: String::from("a"),
        from_address: String::new(),
        to_address: String::from("é"),
        subject: String::new(),
        body: String::new(),
        sent_date: String::from("xy"),
    };
    let expected: Vec<u8> = vec![
        1, 0, 0, 0, b'a', 0, 0, 0, 0, 2, 0, 0, 0, 0xc3, 0xa9, 0, 0, 0, 0, 0, 0, 0, 0, 2, 0, 0,
        0, b'x', b'y',
    ];
    assert_eq!(mail.to_bytes(), expected);
    assert_eq!(Mail::try_from_slice(&expected).unwrap(), mail);
}

#[test]
fn account_bytes_match_borsh_layout() {
    let a = sample_mail();
    let mut b = sample_mail();
    b.subject = String::from("Second");
    let account = MailAccount {
        inbox: vec![a.clone()],
        sent: vec![b.clone(), a.clone()],
    };
    let expected = borsh::to_vec(&(
        vec![as_tuple(&a)],
        vec![as_tuple(&b), as_tuple(&a)],
    ))
    .unwrap();
    assert_eq!(account.to_bytes(), expected);
    let back = MailAccount::try_from_slice(&expected).unwrap();
    assert_eq!(back.inbox, account.inbox);
    assert_eq!(back.sent, account.sent);
}

#[test]
fn empty_account_is_two_zero_counts() {
    let account = MailAccount {
        inbox: Vec::new(),
        sent: Vec::new(),
    };
    assert_eq!(account.to_bytes(), vec![0u8; 8]);
    let back = MailAccount::try_from_slice(&[0u8; 8]).unwrap();
    assert!(back.inbox.is_empty() && back.sent.is_empty());
}

#[test]
fn mail_with_trailing_byte_is_malformed() {
    let mut bytes = sample_mail().to_bytes();
    bytes.push(0);
    assert_eq!(Mail::try_from_slice(&bytes).err(), Some(MailError::MalformedRecord));
}

#[test]
fn mail_with_overlong_field_length_is_malformed() {
    let mut bytes = sample_mail().to_bytes();
    bytes[0] = 200;
    assert_eq!(Mail::try_from_slice(&bytes).err(), Some(MailError::MalformedRecord));
    assert_eq!(Mail::try_from_slice(&[]).err(), Some(MailError::MalformedRecord));
}

#[test]
fn mail_with_invalid_utf8_is_malformed() {
    let bytes: Vec<u8> = vec![
        1, 0, 0, 0, 0xff, 0, 0, 0, 0, 0, 0, 0, 0, 0, 0, 0, 0, 0, 0, 0, 0, 0, 0, 0, 0,
    ];
    assert_eq!(Mail::try_from_slice(&bytes).err(), Some(MailError::MalformedRecord));
}

#[test]
fn account_with_excess_count_is_malformed() {
    let account = MailAccount {
        inbox: vec![sample_mail()],
        sent: Vec::new(),
    };
    let mut bytes = account.to_bytes();
    bytes[0] = 2;
    assert_eq!(
        MailAccount::try_from_slice(&bytes).err(),
        Some(MailError::MalformedCollection)
    );
    let truncated = &account.to_bytes()[..10];
    assert_eq!(
        MailAccount::try_from_slice(truncated).err(),
        Some(MailError::MalformedCollection)
    );
    assert_eq!(
        MailAccount::try_from_slice(&[0, 0, 0, 0, 0, 0, 0, 0, 9]).err(),
        Some(MailError::MalformedCollection)
    );
}
