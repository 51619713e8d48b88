use crate::error::MailError;
use crate::state::{
    copy_mail, encode_account, lemma_account_round_trip, lemma_small_account_fits,
    lemma_u32_of_zeros, lemma_u32_round_trip, le32, parse_account, u32_of, AccountView, Mail,
    MailAccount, MailView,
};
use vstd::prelude::*;
use vstd::slice::slice_subrange;

verus! {

/// Width of the length prefix that starts every buffer.
pub const PREFIX_LEN: usize = 4;

/// Which list of an account a mail is appended to.
#[derive(Debug, Clone, Copy, PartialEq, Eq, Structural)]
pub enum Folder {
    Inbox,
    Sent,
}

/// What reading the framed payload of buffer `d` gives: an error, nothing yet
/// (a zero prefix), or the payload bytes the prefix declares.
pub open spec fn spec_read_frame(d: Seq<u8>) -> Result<Option<Seq<u8>>, MailError> {
    if d.len() < 4 {
        Err(MailError::BufferOverflow)
    } else {
        let n = u32_of(d) as int;
        if n == 0 {
            Ok(None)
        } else if 4 + n > d.len() {
            Err(MailError::BufferOverflow)
        } else {
            Ok(Some(d.subrange(4, 4 + n)))
        }
    }
}

/// A payload can be framed into a buffer of capacity `cap`.
pub open spec fn frame_fits(cap: int, p: Seq<u8>) -> bool {
    p.len() <= u32::MAX && 4 + p.len() <= cap
}

/// Buffer `d` after framing payload `p` into it: the prefix, the payload, and
/// the old bytes beyond them.
pub open spec fn spec_write_frame(d: Seq<u8>, p: Seq<u8>) -> Seq<u8> {
    le32(p.len() as u32) + p + d.skip(4 + p.len() as int)
}

/// The account with both lists empty.
pub open spec fn empty_account() -> AccountView {
    AccountView { inbox: Seq::empty(), sent: Seq::empty() }
}

/// The account that buffer `d` holds; a zero prefix holds the empty account.
pub open spec fn spec_load(d: Seq<u8>) -> Result<AccountView, MailError> {
    match spec_read_frame(d) {
        Err(e) => Err(e),
        Ok(None) => Ok(empty_account()),
        Ok(Some(p)) => match parse_account(p) {
            Some(a) => Ok(a),
            None => Err(MailError::MalformedCollection),
        },
    }
}

/// Buffer `d` after storing account `a` in it, or the overflow that prevents it.
pub open spec fn spec_store(d: Seq<u8>, a: AccountView) -> Result<Seq<u8>, MailError> {
    if frame_fits(d.len() as int, encode_account(a)) {
        Ok(spec_write_frame(d, encode_account(a)))
    } else {
        Err(MailError::BufferOverflow)
    }
}

/// Account `a` with mail `m` appended to the list that `f` names.
pub open spec fn with_mail(a: AccountView, m: MailView, f: Folder) -> AccountView {
    match f {
        Folder::Inbox => AccountView { inbox: a.inbox.push(m), sent: a.sent },
        Folder::Sent => AccountView { inbox: a.inbox, sent: a.sent.push(m) },
    }
}

/// The account a buffer holds after seeding it with mail `m`.
pub open spec fn seeded_account(m: MailView) -> AccountView {
    AccountView { inbox: seq![m], sent: Seq::empty() }
}

/// Buffer `d` after seeding it with mail `m`, or the overflow that prevents it.
pub open spec fn spec_seed(d: Seq<u8>, m: MailView) -> Result<Seq<u8>, MailError> {
    spec_store(d, seeded_account(m))
}

/// Buffer `d` after appending mail `m` to the list `f`, or why that fails.
pub open spec fn spec_append(d: Seq<u8>, m: MailView, f: Folder) -> Result<Seq<u8>, MailError> {
    match spec_load(d) {
        Err(e) => Err(e),
        Ok(a) => spec_store(d, with_mail(a, m, f)),
    }
}

/// The store operations over one buffer each.
pub struct Processor;

impl Processor {
    /// Reads the framed payload at the start of `data`.
    pub fn read_frame(data: &[u8]) -> (r: Result<Option<&[u8]>, MailError>)
        ensures
            match r {
                Ok(Some(p)) => spec_read_frame(data@) == Ok::<Option<Seq<u8>>, MailError>(
                    Some(p@),
                ),
                Ok(None) => spec_read_frame(data@) == Ok::<Option<Seq<u8>>, MailError>(None),
                Err(e) => spec_read_frame(data@) == Err::<Option<Seq<u8>>, MailError>(e),
            },
    {
        if data.len() < PREFIX_LEN {
            return Err(MailError::BufferOverflow);
        }
        let n = (data[0] as u32) | ((data[1] as u32) << 8u32) | ((data[2] as u32) << 16u32) | ((
        data[3] as u32) << 24u32);
        if n == 0 {
            return Ok(None);
        }
        let n = n as usize;
        if n > data.len() - PREFIX_LEN {
            return Err(MailError::BufferOverflow);
        }
        Ok(Some(slice_subrange(data, PREFIX_LEN, PREFIX_LEN + n)))
    }

    /// Frames `payload` into the start of `data`, leaving the bytes after it
    /// untouched; on overflow nothing is written.
    pub fn write_frame(data: &mut [u8], payload: &[u8]) -> (r: Result<(), MailError>)
        ensures
            match r {
                Ok(()) => frame_fits(old(data)@.len() as int, payload@) && final(data)@
                    == spec_write_frame(old(data)@, payload@),
                Err(e) => !frame_fits(old(data)@.len() as int, payload@) && e
                    == MailError::BufferOverflow && final(data)@ == old(data)@,
            },
    {
        if payload.len() > u32::MAX as usize || data.len() < PREFIX_LEN || payload.len()
            > data.len() - PREFIX_LEN {
            return Err(MailError::BufferOverflow);
        }
        let ghost start = data@;
        let cap = data.len();
        let n = payload.len() as u32;
        data[0] = n as u8;
        data[1] = (n >> 8u32) as u8;
        data[2] = (n >> 16u32) as u8;
        data[3] = (n >> 24u32) as u8;
        let mut i: usize = 0;
        while i < payload.len()
            invariant
                i <= payload@.len(),
                4 + payload@.len() <= start.len(),
                n == payload@.len() as u32,
                data@.len() == start.len(),
                start.len() == cap,
                forall|k: int| 0 <= k < 4 ==> #[trigger] data@[k] == le32(n)[k],
                forall|k: int| 4 <= k < 4 + i ==> #[trigger] data@[k] == payload@[k - 4],
                forall|k: int| 4 + i <= k < start.len() ==> #[trigger] data@[k] == start[k],
            decreases payload@.len() - i,
        {
            data[PREFIX_LEN + i] = payload[i];
            i = i + 1;
        }
        assert(data@ =~= spec_write_frame(start, payload@));
        Ok(())
    }

    /// Reads the account that `data` holds.
    pub fn load(data: &[u8]) -> (r: Result<MailAccount, MailError>)
        ensures
            match r {
                Ok(a) => spec_load(data@) == Ok::<AccountView, MailError>(a@),
                Err(e) => spec_load(data@) == Err::<AccountView, MailError>(e),
            },
    {
        match Processor::read_frame(data) {
            Err(e) => Err(e),
            Ok(None) => {
                let a = MailAccount { inbox: Vec::new(), sent: Vec::new() };
                assert(a@.inbox =~= empty_account().inbox);
                assert(a@.sent =~= empty_account().sent);
                Ok(a)
            },
            Ok(Some(p)) => MailAccount::try_from_slice(p),
        }
    }

    /// Stores `account` in `data`; on overflow nothing is written.
    pub fn store(data: &mut [u8], account: &MailAccount) -> (r: Result<(), MailError>)
        ensures
            match spec_store(old(data)@, account@) {
                Ok(d) => r is Ok && final(data)@ == d,
                Err(e) => r == Err::<(), MailError>(e) && final(data)@ == old(data)@,
            },
    {
        let bytes = account.to_bytes();
        Processor::write_frame(data, bytes.as_slice())
    }

    /// Seeds `data` with an account whose inbox holds `mail` alone and whose
    /// sent list is empty. Whatever the buffer held before is replaced.
    pub fn seed(data: &mut [u8], mail: &Mail) -> (r: Result<(), MailError>)
        ensures
            match spec_seed(old(data)@, mail@) {
                Ok(d) => r is Ok && final(data)@ == d,
                Err(e) => r == Err::<(), MailError>(e) && final(data)@ == old(data)@,
            },
    {
        let mut inbox: Vec<Mail> = Vec::new();
        inbox.push(copy_mail(mail));
        let account = MailAccount { inbox, sent: Vec::new() };
        assert(account@.inbox =~= seeded_account(mail@).inbox);
        assert(account@.sent =~= seeded_account(mail@).sent);
        Processor::store(data, &account)
    }

    /// Appends `mail` to the list `folder` of the account that `data` holds.
    /// A zero prefix counts as the empty account; on any error nothing is written.
    pub fn append(data: &mut [u8], mail: &Mail, folder: Folder) -> (r: Result<(), MailError>)
        ensures
            match spec_append(old(data)@, mail@, folder) {
                Ok(d) => r is Ok && final(data)@ == d,
                Err(e) => r == Err::<(), MailError>(e) && final(data)@ == old(data)@,
            },
    {
        let mut account = match Processor::load(data) {
            Ok(a) => a,
            Err(e) => return Err(e),
        };
        let ghost before = account@;
        match folder {
            Folder::Inbox => {
                account.inbox.push(copy_mail(mail));
                assert(account@.inbox =~= before.inbox.push(mail@));
            },
            Folder::Sent => {
                account.sent.push(copy_mail(mail));
                assert(account@.sent =~= before.sent.push(mail@));
            },
        }
        assert(account@ == with_mail(before, mail@, folder));
        Processor::store(data, &account)
    }
}

/// The mail a fresh account is seeded with, from `from` to `to`.
pub open spec fn welcome_mail(from: Seq<char>, to: Seq<char>) -> MailView {
    MailView {
        id: "00000000-0000-0000-0000-000000000000"@,
        from_address: from,
        to_address: to,
        subject: "Welcome to SolMail"@,
        body: "This is the start of your private messages on SolMail
      Lorem, ipsum dolor sit amet consectetur adipisicing elit. Quos ut labore, debitis assumenda, dolorem nulla facere soluta exercitationem excepturi provident ipsam reprehenderit repellat quisquam corrupti commodi fugiat iusto quae voluptates!"@,
        sent_date: "9/29/2021, 3:58:02 PM"@,
    }
}

impl Processor {
    /// Decides whether an account may be written: it must be writable, and
    /// owned by this program; writability is tested first.
    pub fn check_account(is_writable: bool, owned_by_program: bool) -> (r: Result<(), MailError>)
        ensures
            !is_writable ==> r == Err::<(), MailError>(MailError::NotWritable),
            is_writable && !owned_by_program ==> r == Err::<(), MailError>(
                MailError::IncorrectProgramId,
            ),
            is_writable && owned_by_program ==> r is Ok,
    {
        if !is_writable {
            return Err(MailError::NotWritable);
        }
        if !owned_by_program {
            return Err(MailError::IncorrectProgramId);
        }
        Ok(())
    }

    /// Seeds `data` with the welcome mail from `program_address` to
    /// `account_address`; on overflow nothing is written.
    pub fn process_init_account(
        data: &mut [u8],
        program_address: String,
        account_address: String,
    ) -> (r: Result<(), MailError>)
        ensures
            match spec_seed(old(data)@, welcome_mail(program_address@, account_address@)) {
                Ok(d) => r is Ok && final(data)@ == d,
                Err(e) => r == Err::<(), MailError>(e) && final(data)@ == old(data)@,
            },
    {
        let welcome = Mail {
            id: String::from_str("00000000-0000-0000-0000-000000000000"),
            from_address: program_address,
            to_address: account_address,
            subject: String::from_str("Welcome to SolMail"),
            body: String::from_str("This is the start of your private messages on SolMail
      Lorem, ipsum dolor sit amet consectetur adipisicing elit. Quos ut labore, debitis assumenda, dolorem nulla facere soluta exercitationem excepturi provident ipsam reprehenderit repellat quisquam corrupti commodi fugiat iusto quae voluptates!"),
            sent_date: String::from_str("9/29/2021, 3:58:02 PM"),
        };
        Processor::seed(data, &welcome)
    }

    /// Sends `mail`: appends it to the sent list of `sender`, then, if that
    /// succeeded, to the inbox of `receiver`. The two buffers are committed one
    /// after the other: when the second append fails the first stays done.
    pub fn process_send_mail(sender: &mut [u8], receiver: &mut [u8], mail: &Mail) -> (r: Result<
        (),
        MailError,
    >)
        ensures
            match spec_append(old(sender)@, mail@, Folder::Sent) {
                Err(e) => r == Err::<(), MailError>(e) && final(sender)@ == old(sender)@
                    && final(receiver)@ == old(receiver)@,
                Ok(s) => final(sender)@ == s && match spec_append(
                    old(receiver)@,
                    mail@,
                    Folder::Inbox,
                ) {
                    Err(e) => r == Err::<(), MailError>(e) && final(receiver)@ == old(receiver)@,
                    Ok(d) => r is Ok && final(receiver)@ == d,
                },
            },
    {
        match Processor::append(sender, mail, Folder::Sent) {
            Err(e) => return Err(e),
            Ok(()) => {},
        }
        Processor::append(receiver, mail, Folder::Inbox)
    }
}

/// Framing a payload and reading it straight back gives the payload, with a
/// prefix that declares its length; an empty payload reads back as nothing.
pub proof fn lemma_frame_round_trip(d: Seq<u8>, p: Seq<u8>)
    requires
        frame_fits(d.len() as int, p),
    ensures
        u32_of(spec_write_frame(d, p)) == p.len(),
        spec_write_frame(d, p).len() == d.len(),
        spec_read_frame(spec_write_frame(d, p)) == (if p.len() == 0 {
            Ok::<Option<Seq<u8>>, MailError>(None)
        } else {
            Ok::<Option<Seq<u8>>, MailError>(Some(p))
        }),
{
    let n = p.len() as u32;
    let w = spec_write_frame(d, p);
    lemma_u32_round_trip(n);
    assert(w[0] == le32(n)[0] && w[1] == le32(n)[1] && w[2] == le32(n)[2] && w[3] == le32(n)[3]);
    assert(u32_of(w) == u32_of(le32(n)));
    assert(w.subrange(4, 4 + p.len() as int) =~= p);
}

/// Storing an account and reading the buffer back gives the account.
pub proof fn lemma_store_then_load(d: Seq<u8>, a: AccountView)
    requires
        spec_store(d, a) is Ok,
    ensures
        spec_load(spec_store(d, a)->Ok_0) == Ok::<AccountView, MailError>(a),
{
    let p = encode_account(a);
    lemma_small_account_fits(a);
    lemma_account_round_trip(a);
    lemma_frame_round_trip(d, p);
}

/// Seeding a buffer with `m` and reading it back gives an inbox of `m` alone
/// and an empty sent list.
pub proof fn lemma_seed_then_load(d: Seq<u8>, m: MailView)
    requires
        spec_seed(d, m) is Ok,
    ensures
        spec_load(spec_seed(d, m)->Ok_0) == Ok::<AccountView, MailError>(
            AccountView { inbox: seq![m], sent: Seq::empty() },
        ),
{
    lemma_store_then_load(d, seeded_account(m));
}

/// An append that succeeds leaves a buffer that reads back as the old account
/// with the mail added at the end of the chosen list.
pub proof fn lemma_append_then_load(d: Seq<u8>, m: MailView, f: Folder)
    requires
        spec_append(d, m, f) is Ok,
    ensures
        spec_load(d) is Ok,
        spec_load(spec_append(d, m, f)->Ok_0) == Ok::<AccountView, MailError>(
            with_mail(spec_load(d)->Ok_0, m, f),
        ),
{
    lemma_store_then_load(d, with_mail(spec_load(d)->Ok_0, m, f));
}

/// Appending to one list never changes the other one, nor the mails already
/// in the list appended to.
pub proof fn lemma_append_keeps_other_list(d: Seq<u8>, m: MailView, f: Folder)
    requires
        spec_append(d, m, f) is Ok,
    ensures
        ({
            let before = spec_load(d)->Ok_0;
            let after = spec_load(spec_append(d, m, f)->Ok_0)->Ok_0;
            &&& f == Folder::Sent ==> after.inbox == before.inbox && after.sent.drop_last()
                == before.sent
            &&& f == Folder::Inbox ==> after.sent == before.sent && after.inbox.drop_last()
                == before.inbox
        }),
{
    lemma_append_then_load(d, m, f);
    let before = spec_load(d)->Ok_0;
    assert(before.sent.push(m).drop_last() =~= before.sent);
    assert(before.inbox.push(m).drop_last() =~= before.inbox);
}

/// Two appends to the sent list leave both mails at its end, in call order,
/// and the inbox as it was.
pub proof fn lemma_append_order(d: Seq<u8>, m1: MailView, m2: MailView)
    requires
        spec_append(d, m1, Folder::Sent) is Ok,
        spec_append(spec_append(d, m1, Folder::Sent)->Ok_0, m2, Folder::Sent) is Ok,
    ensures
        ({
            let before = spec_load(d)->Ok_0;
            let d2 = spec_append(spec_append(d, m1, Folder::Sent)->Ok_0, m2, Folder::Sent)->Ok_0;
            spec_load(d2) == Ok::<AccountView, MailError>(
                AccountView { inbox: before.inbox, sent: before.sent + seq![m1, m2] },
            )
        }),
{
    let d1 = spec_append(d, m1, Folder::Sent)->Ok_0;
    let a0 = spec_load(d)->Ok_0;
    lemma_append_then_load(d, m1, Folder::Sent);
    let a1 = with_mail(a0, m1, Folder::Sent);
    assert(spec_load(d1)->Ok_0 == a1);
    lemma_append_then_load(d1, m2, Folder::Sent);
    let a2 = with_mail(a1, m2, Folder::Sent);
    assert(a2.sent =~= a0.sent + seq![m1, m2]);
    assert(a2.inbox == a0.inbox);
}

/// An append whose new framed account does not fit the buffer fails with an
/// overflow (and, by the contract of `append`, writes nothing).
pub proof fn lemma_append_overflow(d: Seq<u8>, m: MailView, f: Folder)
    requires
        spec_load(d) is Ok,
        !frame_fits(d.len() as int, encode_account(with_mail(spec_load(d)->Ok_0, m, f))),
    ensures
        spec_append(d, m, f) == Err::<Seq<u8>, MailError>(MailError::BufferOverflow),
{
}

/// A buffer whose prefix is four zero bytes holds the empty account, so an
/// append to it that succeeds leaves exactly the one mail in the chosen list.
pub proof fn lemma_zero_prefix(d: Seq<u8>, m: MailView, f: Folder)
    requires
        d.len() >= 4,
        d[0] == 0 && d[1] == 0 && d[2] == 0 && d[3] == 0,
    ensures
        spec_load(d) == Ok::<AccountView, MailError>(empty_account()),
        spec_append(d, m, f) is Ok ==> spec_load(spec_append(d, m, f)->Ok_0) == Ok::<
            AccountView,
            MailError,
        >(with_mail(empty_account(), m, f)),
{
    lemma_u32_of_zeros(d);
    if spec_append(d, m, f) is Ok {
        lemma_append_then_load(d, m, f);
    }
}

} // verus!
