use solana_program::pubkey::Pubkey;
use solmail::error::MailError;
use solmail::processor::{Folder, Processor};
use solmail::state::{DataLength, Mail, MailAccount};

const LONG_BODY: &str = "Lorem, ipsum dolor sit amet consectetur adipisicing elit. Quos ut labore, debitis assumenda, dolorem nulla facere soluta exercitationem excepturi provident ipsam reprehenderit repellat quisquam corrupti commodi fugiat iusto quae voluptates!";

fn mail_with_subject(subject: &str) -> Mail {
    Mail {
        id: String::from("00000000-0000-0000-0000-000000000000"),
        from_address: Pubkey::default().to_string(),
        to_address: Pubkey::default().to_string(),
        subject: String::from(subject),
        body: String::from(LONG_BODY),
        sent_date: String::from("9/29/2021, 3:58:02 PM"),
    }
}

fn read_back(data: &[u8]) -> MailAccount {
    let data_length = DataLength::try_from_slice(&data[..4]).unwrap();
    MailAccount::try_from_slice(&data[4..usize::try_from(data_length.length + 4).unwrap()])
        .unwrap()
}

#[test]
fn test_init_account() {
    let program_id = Pubkey::default();
    let key = Pubkey::default();
    let mut data = [0; 1000];

    Processor::process_init_account(&mut data, program_id.to_string(), key.to_string()).unwrap();

    let mail_account = read_back(&data);

    assert_eq!(mail_account.inbox[0].subject, "Welcome to SolMail");
    assert!(mail_account.sent.is_empty());
    assert_eq!(mail_account.inbox.len(), 1);
    assert_eq!(mail_account.inbox[0].from_address, program_id.to_string());
}

#[test]
fn test_send_mail() {
    let mut sender_data = [0; 1000];
    let mut receiver_data = [0; 1000];

    let mail = mail_with_subject("Hey Mike!!!");

    Processor::process_send_mail(&mut sender_data, &mut receiver_data, &mail).unwrap();

    let mail_account = read_back(&sender_data);
    assert_eq!(mail_account.sent[0].subject, "Hey Mike!!!");

    let mail_account = read_back(&receiver_data);
    assert_eq!(mail_account.inbox[0].subject, "Hey Mike!!!");
}

#[test]
fn seed_then_load_gives_single_inbox_mail() {
    let mut data = vec![0u8; 1000];
    let mail = mail_with_subject("Welcome to SolMail");
    Processor::seed(&mut data, &mail).unwrap();
    let account = Processor::load(&data).unwrap();
    assert_eq!(account.inbox, vec![mail]);
    assert!(account.sent.is_empty());
}

#[test]
fn appends_keep_order() {
    let mut data = vec![0u8; 2000];
    let r1 = mail_with_subject("one");
    let r2 = mail_with_subject("two");
    Processor::append(&mut data, &r1, Folder::Sent).unwrap();
    Processor::append(&mut data, &r2, Folder::Sent).unwrap();
    let account = Processor::load(&data).unwrap();
    assert_eq!(account.sent, vec![r1, r2]);
    assert!(account.inbox.is_empty());
}

#[test]
fn append_touches_only_its_list() {
    let mut data = vec![0u8; 2000];
    let seed = mail_with_subject("seed");
    let other = mail_with_subject("other");
    Processor::seed(&mut data, &seed).unwrap();
    Processor::append(&mut data, &other, Folder::Sent).unwrap();
    let account = Processor::load(&data).unwrap();
    assert_eq!(account.inbox, vec![seed.clone()]);
    assert_eq!(account.sent, vec![other.clone()]);
    Processor::append(&mut data, &other, Folder::Inbox).unwrap();
    let account = Processor::load(&data).unwrap();
    assert_eq!(account.inbox, vec![seed, other.clone()]);
    assert_eq!(account.sent, vec![other]);
}

#[test]
fn overflowing_append_leaves_buffer_unchanged() {
    let mail = mail_with_subject("fits once");
    let one = MailAccount {
        inbox: Vec::new(),
        sent: vec![mail.clone()],
    };
    let mut data = vec![0xabu8; 4 + one.to_bytes().len()];
    data[..4].copy_from_slice(&[0, 0, 0, 0]);
    Processor::append(&mut data, &mail, Folder::Sent).unwrap();
    let before = data.clone();
    assert_eq!(
        Processor::append(&mut data, &mail, Folder::Sent),
        Err(MailError::BufferOverflow)
    );
    assert_eq!(data, before);
}

#[test]
fn exact_fit_boundary() {
    let mail = mail_with_subject("edge");
    let one = MailAccount {
        inbox: vec![mail.clone()],
        sent: Vec::new(),
    };
    let needed = 4 + one.to_bytes().len();
    let mut small = vec![0u8; needed - 1];
    assert_eq!(Processor::seed(&mut small, &mail), Err(MailError::BufferOverflow));
    assert_eq!(small, vec![0u8; needed - 1]);
    let mut exact = vec![0u8; needed];
    Processor::seed(&mut exact, &mail).unwrap();
    assert_eq!(Processor::load(&exact).unwrap().inbox, vec![mail]);
}

#[test]
fn zero_prefix_reads_as_empty_account() {
    let mut data = vec![0u8; 600];
    for b in data[4..].iter_mut() {
        *b = 0x5a;
    }
    let account = Processor::load(&data).unwrap();
    assert!(account.inbox.is_empty() && account.sent.is_empty());
    let mail = mail_with_subject("first");
    Processor::append(&mut data, &mail, Folder::Sent).unwrap();
    let account = Processor::load(&data).unwrap();
    assert_eq!(account.sent, vec![mail]);
    assert!(account.inbox.is_empty());
}

#[test]
fn frame_write_then_read() {
    let mut data = vec![9u8; 12];
    Processor::write_frame(&mut data, &[1, 2, 3]).unwrap();
    assert_eq!(data, vec![3, 0, 0, 0, 1, 2, 3, 9, 9, 9, 9, 9]);
    assert_eq!(Processor::read_frame(&data), Ok(Some(&[1u8, 2, 3][..])));
    assert_eq!(
        Processor::write_frame(&mut data, &[0; 9]),
        Err(MailError::BufferOverflow)
    );
    assert_eq!(data, vec![3, 0, 0, 0, 1, 2, 3, 9, 9, 9, 9, 9]);
}

#[test]
fn frame_read_rejects_bad_prefix() {
    assert_eq!(Processor::read_frame(&[0, 0, 0]), Err(MailError::BufferOverflow));
    assert_eq!(Processor::read_frame(&[0, 0, 0, 0, 7]), Ok(None));
    assert_eq!(
        Processor::read_frame(&[2, 0, 0, 0, 7]),
        Err(MailError::BufferOverflow)
    );
}

#[test]
fn corrupted_payload_is_malformed_collection() {
    let mut data = vec![0u8; 100];
    data[0] = 3;
    let before = data.clone();
    assert_eq!(
        Processor::append(&mut data, &mail_with_subject("x"), Folder::Inbox),
        Err(MailError::MalformedCollection)
    );
    assert_eq!(data, before);
}

#[test]
fn failed_receiver_leaves_sender_written() {
    let mut sender = vec![0u8; 1000];
    let mut receiver = vec![0u8; 10];
    let mail = mail_with_subject("Hey Mike!!!");
    assert_eq!(
        Processor::process_send_mail(&mut sender, &mut receiver, &mail),
        Err(MailError::BufferOverflow)
    );
    assert_eq!(Processor::load(&sender).unwrap().sent, vec![mail]);
    assert_eq!(receiver, vec![0u8; 10]);
}

#[test]
fn account_checks_in_order() {
    assert_eq!(Processor::check_account(false, false), Err(MailError::NotWritable));
    assert_eq!(Processor::check_account(false, true), Err(MailError::NotWritable));
    assert_eq!(
        Processor::check_account(true, false),
        Err(MailError::IncorrectProgramId)
    );
    assert_eq!(Processor::check_account(true, true), Ok(()));
}
