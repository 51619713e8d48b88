use vstd::prelude::*;
use vstd::slice::{slice_subrange, slice_to_vec};
use vstd::utf8::{decode_utf8, encode_utf8, valid_utf8};

verus! {

/// The four little-endian bytes of `n`.
pub open spec fn le32(n: u32) -> Seq<u8> {
    seq![n as u8, (n >> 8u32) as u8, (n >> 16u32) as u8, (n >> 24u32) as u8]
}

/// The number whose little-endian bytes are the first four of `b`.
pub open spec fn u32_of(b: Seq<u8>) -> u32
    recommends
        b.len() >= 4,
{
    (b[0] as u32) | ((b[1] as u32) << 8u32) | ((b[2] as u32) << 16u32) | ((b[3] as u32) << 24u32)
}

/// Reading back the four bytes of a number gives the number.
pub proof fn lemma_u32_round_trip(n: u32)
    ensures
        u32_of(le32(n)) == n,
        le32(n).len() == 4,
{
    let b0 = n as u8;
    let b1 = (n >> 8u32) as u8;
    let b2 = (n >> 16u32) as u8;
    let b3 = (n >> 24u32) as u8;
    assert((b0 as u32) | ((b1 as u32) << 8u32) | ((b2 as u32) << 16u32) | ((b3 as u32) << 24u32)
        == n) by (bit_vector)
        requires
            b0 == n as u8,
            b1 == (n >> 8u32) as u8,
            b2 == (n >> 16u32) as u8,
            b3 == (n >> 24u32) as u8,
    ;
}

/// Four zero bytes read as the number zero.
pub proof fn lemma_u32_of_zeros(b: Seq<u8>)
    requires
        b.len() >= 4,
        b[0] == 0,
        b[1] == 0,
        b[2] == 0,
        b[3] == 0,
    ensures
        u32_of(b) == 0,
{
    let (b0, b1, b2, b3) = (b[0], b[1], b[2], b[3]);
    assert((b0 as u32) | ((b1 as u32) << 8u32) | ((b2 as u32) << 16u32) | ((b3 as u32) << 24u32)
        == 0) by (bit_vector)
        requires
            b0 == 0u8,
            b1 == 0u8,
            b2 == 0u8,
            b3 == 0u8,
    ;
}

/// Appends the four little-endian bytes of `n` to `out`.
fn push_u32(out: &mut Vec<u8>, n: u32)
    ensures
        final(out)@ == old(out)@ + le32(n),
{
    out.push(n as u8);
    out.push((n >> 8u32) as u8);
    out.push((n >> 16u32) as u8);
    out.push((n >> 24u32) as u8);
    assert(final(out)@ =~= old(out)@ + le32(n));
}

/// Reads the little-endian number stored at `b[pos..pos + 4]`.
fn read_u32(b: &[u8], pos: usize) -> (r: u32)
    requires
        pos + 4 <= b@.len(),
    ensures
        r == u32_of(b@.skip(pos as int)),
{
    (b[pos] as u32) | ((b[pos + 1] as u32) << 8u32) | ((b[pos + 2] as u32) << 16u32) | ((
    b[pos + 3] as u32) << 24u32)
}

/// The length field that precedes a stored mail account.
#[derive(Debug)]
pub struct DataLength {
    pub length: u32,
}

impl DataLength {
    /// The four little-endian bytes of the length.
    pub fn to_bytes(&self) -> (r: Vec<u8>)
        ensures
            r@ == le32(self.length),
    {
        let mut out: Vec<u8> = Vec::new();
        push_u32(&mut out, self.length);
        out
    }

    /// Reads a length from exactly four bytes.
    pub fn try_from_slice(b: &[u8]) -> (r: Result<DataLength, crate::error::MailError>)
        ensures
            b@.len() == 4 ==> r == Ok::<DataLength, crate::error::MailError>(
                DataLength { length: u32_of(b@) },
            ),
            b@.len() != 4 ==> r == Err::<DataLength, crate::error::MailError>(
                crate::error::MailError::MalformedRecord,
            ),
    {
        if b.len() != 4 {
            return Err(crate::error::MailError::MalformedRecord);
        }
        let length = read_u32(b, 0);
        assert(b@.skip(0) =~= b@);
        Ok(DataLength { length })
    }
}

/// One message: six text fields, stored in this order.
#[derive(Clone, Debug, PartialEq)]
pub struct Mail {
    pub id: String,
    pub from_address: String,
    pub to_address: String,
    pub subject: String,
    pub body: String,
    pub sent_date: String,
}

/// The characters of each field of a mail.
pub struct MailView {
    pub id: Seq<char>,
    pub from_address: Seq<char>,
    pub to_address: Seq<char>,
    pub subject: Seq<char>,
    pub body: Seq<char>,
    pub sent_date: Seq<char>,
}

impl View for Mail {
    type V = MailView;

    open spec fn view(&self) -> MailView {
        MailView {
            id: self.id@,
            from_address: self.from_address@,
            to_address: self.to_address@,
            subject: self.subject@,
            body: self.body@,
            sent_date: self.sent_date@,
        }
    }
}

/// A text field is stored as the byte length of its UTF-8 form, then that form.
pub open spec fn encode_field(s: Seq<char>) -> Seq<u8> {
    le32(encode_utf8(s).len() as u32) + encode_utf8(s)
}

/// The byte length of a field's UTF-8 form fits in the length prefix.
pub open spec fn field_fits(s: Seq<char>) -> bool {
    encode_utf8(s).len() <= u32::MAX
}

/// A mail is stored as its six fields, one after the other.
pub open spec fn encode_mail(m: MailView) -> Seq<u8> {
    encode_field(m.id) + encode_field(m.from_address) + encode_field(m.to_address)
        + encode_field(m.subject) + encode_field(m.body) + encode_field(m.sent_date)
}

/// Every field of the mail fits its length prefix.
pub open spec fn mail_fits(m: MailView) -> bool {
    &&& field_fits(m.id)
    &&& field_fits(m.from_address)
    &&& field_fits(m.to_address)
    &&& field_fits(m.subject)
    &&& field_fits(m.body)
    &&& field_fits(m.sent_date)
}

/// Reads one field starting at `pos`: the text and the position just after it.
pub open spec fn parse_field_at(b: Seq<u8>, pos: int) -> Option<(Seq<char>, int)> {
    if pos < 0 || pos + 4 > b.len() {
        None
    } else {
        let n = u32_of(b.skip(pos)) as int;
        if pos + 4 + n > b.len() {
            None
        } else if !valid_utf8(b.subrange(pos + 4, pos + 4 + n)) {
            None
        } else {
            Some((decode_utf8(b.subrange(pos + 4, pos + 4 + n)), pos + 4 + n))
        }
    }
}

/// Reads one mail starting at `pos`: the mail and the position just after it.
pub open spec fn parse_mail_at(b: Seq<u8>, pos: int) -> Option<(MailView, int)> {
    match parse_field_at(b, pos) {
        None => None,
        Some((id, p1)) => match parse_field_at(b, p1) {
            None => None,
            Some((from_address, p2)) => match parse_field_at(b, p2) {
                None => None,
                Some((to_address, p3)) => match parse_field_at(b, p3) {
                    None => None,
                    Some((subject, p4)) => match parse_field_at(b, p4) {
                        None => None,
                        Some((body, p5)) => match parse_field_at(b, p5) {
                            None => None,
                            Some((sent_date, p6)) => Some(
                                (
                                    MailView {
                                        id,
                                        from_address,
                                        to_address,
                                        subject,
                                        body,
                                        sent_date,
                                    },
                                    p6,
                                ),
                            ),
                        },
                    },
                },
            },
        },
    }
}

/// The mail that `b` holds exactly, with no byte left over.
pub open spec fn decode_mail(b: Seq<u8>) -> Option<MailView> {
    match parse_mail_at(b, 0) {
        Some((m, p)) => if p == b.len() {
            Some(m)
        } else {
            None
        },
        None => None,
    }
}

/// Relies on `String::from_utf8`: it gives back the string exactly when the
/// bytes are well-formed UTF-8, and then the string those bytes encode.
#[verifier::external_body]
fn string_from_utf8(v: Vec<u8>) -> (r: Option<String>)
    ensures
        match r {
            Some(s) => valid_utf8(v@) && s@ == decode_utf8(v@),
            None => !valid_utf8(v@),
        },
{
    String::from_utf8(v).ok()
}

/// Appends one stored field to `out`.
fn push_field(out: &mut Vec<u8>, s: &String)
    ensures
        final(out)@ == old(out)@ + encode_field(s@),
{
    let b = s.as_str().as_bytes();
    push_u32(out, b.len() as u32);
    let ghost start = out@;
    let mut i: usize = 0;
    while i < b.len()
        invariant
            i <= b@.len(),
            out@ == start + b@.take(i as int),
        decreases b@.len() - i,
    {
        out.push(b[i]);
        i = i + 1;
        assert(out@ =~= start + b@.take(i as int));
    }
    assert(b@.take(i as int) =~= b@);
    assert(final(out)@ =~= old(out)@ + encode_field(s@));
}

/// Reads the field stored at `pos`, if one is there.
fn read_field(b: &[u8], pos: usize) -> (r: Option<(String, usize)>)
    ensures
        match parse_field_at(b@, pos as int) {
            None => r is None,
            Some((s, p)) => r matches Some((t, q)) && t@ == s && q as int == p,
        },
{
    if b.len() < 4 || pos > b.len() - 4 {
        return None;
    }
    let n = read_u32(b, pos) as usize;
    if n > b.len() - pos - 4 {
        return None;
    }
    let sub = slice_subrange(b, pos + 4, pos + 4 + n);
    let v = slice_to_vec(sub);
    match string_from_utf8(v) {
        Some(s) => Some((s, pos + 4 + n)),
        None => None,
    }
}

/// A window of `b` that holds `x + y` holds `x` and then `y`.
proof fn lemma_split(b: Seq<u8>, pos: int, x: Seq<u8>, y: Seq<u8>)
    requires
        0 <= pos,
        pos + x.len() + y.len() <= b.len(),
        b.subrange(pos, pos + x.len() + y.len()) == x + y,
    ensures
        b.subrange(pos, pos + x.len()) == x,
        b.subrange(pos + x.len(), pos + x.len() + y.len()) == y,
{
    assert forall|k: int| 0 <= k < x.len() implies #[trigger] b[pos + k] == x[k] by {
        assert(b.subrange(pos, pos + x.len() + y.len())[k] == b[pos + k]);
    }
    let w = b.subrange(pos + x.len(), pos + x.len() + y.len());
    assert forall|k: int| 0 <= k < y.len() implies #[trigger] w[k] == y[k] by {
        assert(b.subrange(pos, pos + x.len() + y.len())[x.len() + k] == b[pos + x.len() + k]);
        assert((x + y)[x.len() + k] == y[k]);
    }
    assert(b.subrange(pos, pos + x.len()) =~= x);
    assert(b.subrange(pos + x.len(), pos + x.len() + y.len()) =~= y);
}

/// Four bytes at `pos` that are the stored form of `n` read back as `n`.
proof fn lemma_u32_window(b: Seq<u8>, pos: int, n: u32)
    requires
        0 <= pos,
        pos + 4 <= b.len(),
        b.subrange(pos, pos + 4) == le32(n),
    ensures
        u32_of(b.skip(pos)) == n,
{
    lemma_u32_round_trip(n);
    assert forall|k: int| 0 <= k < 4 implies b.skip(pos)[k] == le32(n)[k] by {
        assert(b.subrange(pos, pos + 4)[k] == b[pos + k]);
    }
    assert(u32_of(b.skip(pos)) == u32_of(le32(n)));
}

/// A stored field reads back as the same text, wherever it stands.
pub proof fn lemma_field_round_trip(b: Seq<u8>, pos: int, s: Seq<char>)
    requires
        field_fits(s),
        0 <= pos,
        pos + encode_field(s).len() <= b.len(),
        b.subrange(pos, pos + encode_field(s).len()) == encode_field(s),
    ensures
        parse_field_at(b, pos) == Some((s, pos + encode_field(s).len())),
{
    broadcast use vstd::utf8::encode_utf8_valid_utf8, vstd::utf8::encode_utf8_decode_utf8;

    let e = encode_utf8(s);
    let n = e.len() as u32;
    let f = encode_field(s);
    lemma_u32_round_trip(n);
    lemma_split(b, pos, le32(n), e);
    lemma_u32_window(b, pos, n);
}

/// A stored mail reads back as the same mail, wherever it stands.
pub proof fn lemma_mail_at_round_trip(b: Seq<u8>, pos: int, m: MailView)
    requires
        mail_fits(m),
        0 <= pos,
        pos + encode_mail(m).len() <= b.len(),
        b.subrange(pos, pos + encode_mail(m).len()) == encode_mail(m),
    ensures
        parse_mail_at(b, pos) == Some((m, pos + encode_mail(m).len())),
{
    let f1 = encode_field(m.id);
    let f2 = encode_field(m.from_address);
    let f3 = encode_field(m.to_address);
    let f4 = encode_field(m.subject);
    let f5 = encode_field(m.body);
    let f6 = encode_field(m.sent_date);
    let o2 = f1.len() as int;
    let o3 = o2 + f2.len();
    let o4 = o3 + f3.len();
    let o5 = o4 + f4.len();
    let o6 = o5 + f5.len();
    lemma_split(b, pos, f1 + f2 + f3 + f4 + f5, f6);
    lemma_split(b, pos, f1 + f2 + f3 + f4, f5);
    lemma_split(b, pos, f1 + f2 + f3, f4);
    lemma_split(b, pos, f1 + f2, f3);
    lemma_split(b, pos, f1, f2);
    lemma_field_round_trip(b, pos, m.id);
    lemma_field_round_trip(b, pos + o2, m.from_address);
    lemma_field_round_trip(b, pos + o3, m.to_address);
    lemma_field_round_trip(b, pos + o4, m.subject);
    lemma_field_round_trip(b, pos + o5, m.body);
    lemma_field_round_trip(b, pos + o6, m.sent_date);
}

/// Decoding the stored form of a mail whose fields fit their prefixes gives the mail back.
pub proof fn lemma_mail_round_trip(m: MailView)
    requires
        mail_fits(m),
    ensures
        decode_mail(encode_mail(m)) == Some(m),
{
    let e = encode_mail(m);
    assert(e.subrange(0, e.len() as int) =~= e);
    lemma_mail_at_round_trip(e, 0, m);
}

impl Mail {
    /// Appends the stored form of this mail to `out`.
    pub fn encode_into(&self, out: &mut Vec<u8>)
        ensures
            final(out)@ == old(out)@ + encode_mail(self@),
    {
        push_field(out, &self.id);
        push_field(out, &self.from_address);
        push_field(out, &self.to_address);
        push_field(out, &self.subject);
        push_field(out, &self.body);
        push_field(out, &self.sent_date);
        assert(final(out)@ =~= old(out)@ + encode_mail(self@));
    }

    /// The stored form of this mail.
    pub fn to_bytes(&self) -> (r: Vec<u8>)
        ensures
            r@ == encode_mail(self@),
    {
        let mut out: Vec<u8> = Vec::new();
        self.encode_into(&mut out);
        assert(out@ =~= encode_mail(self@));
        out
    }

    /// Reads the mail stored at `pos`, and the position just after it.
    pub fn read_at(b: &[u8], pos: usize) -> (r: Option<(Mail, usize)>)
        ensures
            match parse_mail_at(b@, pos as int) {
                None => r is None,
                Some((m, p)) => r matches Some((t, q)) && t@ == m && q as int == p,
            },
    {
        let (id, p1) = match read_field(b, pos) {
            Some(x) => x,
            None => return None,
        };
        let (from_address, p2) = match read_field(b, p1) {
            Some(x) => x,
            None => return None,
        };
        let (to_address, p3) = match read_field(b, p2) {
            Some(x) => x,
            None => return None,
        };
        let (subject, p4) = match read_field(b, p3) {
            Some(x) => x,
            None => return None,
        };
        let (body, p5) = match read_field(b, p4) {
            Some(x) => x,
            None => return None,
        };
        let (sent_date, p6) = match read_field(b, p5) {
            Some(x) => x,
            None => return None,
        };
        Some((Mail { id, from_address, to_address, subject, body, sent_date }, p6))
    }

    /// Reads a mail from bytes that hold exactly one stored mail.
    pub fn try_from_slice(b: &[u8]) -> (r: Result<Mail, crate::error::MailError>)
        ensures
            match decode_mail(b@) {
                Some(m) => r matches Ok(t) && t@ == m,
                None => r == Err::<Mail, crate::error::MailError>(
                    crate::error::MailError::MalformedRecord,
                ),
            },
    {
        match Mail::read_at(b, 0) {
            Some((m, p)) => {
                if p == b.len() {
                    Ok(m)
                } else {
                    Err(crate::error::MailError::MalformedRecord)
                }
            },
            None => Err(crate::error::MailError::MalformedRecord),
        }
    }
}

/// The views of a sequence of mails.
pub open spec fn view_mails(v: Seq<Mail>) -> Seq<MailView> {
    v.map_values(|m: Mail| m@)
}

/// Mails are stored one after the other, in order.
pub open spec fn encode_mails(ms: Seq<MailView>) -> Seq<u8>
    decreases ms.len(),
{
    if ms.len() == 0 {
        Seq::empty()
    } else {
        encode_mails(ms.drop_last()) + encode_mail(ms.last())
    }
}

/// Reads `n` mails one after the other from `pos`: the mails and the position after them.
pub open spec fn parse_mails_at(b: Seq<u8>, pos: int, n: nat) -> Option<(Seq<MailView>, int)>
    decreases n,
{
    if n == 0 {
        Some((Seq::empty(), pos))
    } else {
        match parse_mails_at(b, pos, (n - 1) as nat) {
            None => None,
            Some((ms, p)) => match parse_mail_at(b, p) {
                None => None,
                Some((m, q)) => Some((ms.push(m), q)),
            },
        }
    }
}

/// Every mail of the sequence fits its length prefixes.
pub open spec fn mails_fit(ms: Seq<MailView>) -> bool {
    forall|i: int| 0 <= i < ms.len() ==> #[trigger] mail_fits(ms[i])
}

/// Once `n` mails cannot be read, no larger number can.
proof fn lemma_parse_mails_none(b: Seq<u8>, pos: int, i: nat, n: nat)
    requires
        i <= n,
        parse_mails_at(b, pos, i) is None,
    ensures
        parse_mails_at(b, pos, n) is None,
    decreases n - i,
{
    if i < n {
        lemma_parse_mails_none(b, pos, i, (n - 1) as nat);
    }
}

/// Stored mails read back as the same mails, wherever they stand.
pub proof fn lemma_mails_at_round_trip(b: Seq<u8>, pos: int, ms: Seq<MailView>)
    requires
        mails_fit(ms),
        0 <= pos,
        pos + encode_mails(ms).len() <= b.len(),
        b.subrange(pos, pos + encode_mails(ms).len()) == encode_mails(ms),
    ensures
        parse_mails_at(b, pos, ms.len()) == Some((ms, pos + encode_mails(ms).len())),
    decreases ms.len(),
{
    if ms.len() == 0 {
        assert(ms =~= Seq::<MailView>::empty());
    } else {
        let init = ms.drop_last();
        let last = ms.last();
        assert(mail_fits(ms[ms.len() - 1]));
        assert(mails_fit(init)) by {
            assert forall|i: int| 0 <= i < init.len() implies #[trigger] mail_fits(init[i]) by {
                assert(mail_fits(ms[i]));
            }
        }
        lemma_split(b, pos, encode_mails(init), encode_mail(last));
        lemma_mails_at_round_trip(b, pos, init);
        lemma_mail_at_round_trip(b, pos + encode_mails(init).len(), last);
        assert(init.push(last) =~= ms);
    }
}

/// The two lists of mails held in one buffer.
#[derive(Debug)]
pub struct MailAccount {
    pub inbox: Vec<Mail>,
    pub sent: Vec<Mail>,
}

/// The mails of each list of an account.
pub struct AccountView {
    pub inbox: Seq<MailView>,
    pub sent: Seq<MailView>,
}

impl View for MailAccount {
    type V = AccountView;

    open spec fn view(&self) -> AccountView {
        AccountView { inbox: view_mails(self.inbox@), sent: view_mails(self.sent@) }
    }
}

/// An account is stored as the inbox count and mails, then the sent count and mails.
pub open spec fn encode_account(a: AccountView) -> Seq<u8> {
    le32(a.inbox.len() as u32) + encode_mails(a.inbox) + le32(a.sent.len() as u32) + encode_mails(
        a.sent,
    )
}

/// Both counts fit their prefixes, and so does every mail.
pub open spec fn account_fits(a: AccountView) -> bool {
    &&& a.inbox.len() <= u32::MAX
    &&& a.sent.len() <= u32::MAX
    &&& mails_fit(a.inbox)
    &&& mails_fit(a.sent)
}

/// The account that `b` holds exactly, with no byte left over.
#[verifier::opaque]
pub open spec fn parse_account(b: Seq<u8>) -> Option<AccountView> {
    if b.len() < 4 {
        None
    } else {
        match parse_mails_at(b, 4, u32_of(b) as nat) {
            None => None,
            Some((inbox, p)) => if p + 4 > b.len() {
                None
            } else {
                match parse_mails_at(b, p + 4, u32_of(b.skip(p)) as nat) {
                    None => None,
                    Some((sent, q)) => if q == b.len() {
                        Some(AccountView { inbox, sent })
                    } else {
                        None
                    },
                }
            },
        }
    }
}

/// Decoding the stored form of an account whose counts and fields fit their
/// prefixes gives the account back.
pub proof fn lemma_account_round_trip(a: AccountView)
    requires
        account_fits(a),
    ensures
        parse_account(encode_account(a)) == Some(a),
{
    reveal(parse_account);
    let b = encode_account(a);
    let l1 = le32(a.inbox.len() as u32);
    let m1 = encode_mails(a.inbox);
    let l2 = le32(a.sent.len() as u32);
    let m2 = encode_mails(a.sent);
    assert(b.subrange(0, b.len() as int) =~= b);
    lemma_u32_round_trip(a.inbox.len() as u32);
    lemma_u32_round_trip(a.sent.len() as u32);
    lemma_split(b, 0, l1 + m1 + l2, m2);
    lemma_split(b, 0, l1 + m1, l2);
    lemma_split(b, 0, l1, m1);
    lemma_u32_window(b, 0, a.inbox.len() as u32);
    assert(b.skip(0) =~= b);
    lemma_mails_at_round_trip(b, 4, a.inbox);
    lemma_u32_window(b, 4 + m1.len() as int, a.sent.len() as u32);
    lemma_mails_at_round_trip(b, 8 + m1.len() as int, a.sent);
}

/// Appends the stored form of each mail of `v`, in order, to `out`.
fn encode_mails_into(v: &Vec<Mail>, out: &mut Vec<u8>)
    ensures
        final(out)@ == old(out)@ + encode_mails(view_mails(v@)),
{
    let ghost start = out@;
    let mut i: usize = 0;
    assert(view_mails(v@.take(0)) =~= Seq::<MailView>::empty());
    assert(out@ =~= start + encode_mails(view_mails(v@.take(0))));
    while i < v.len()
        invariant
            i <= v@.len(),
            out@ == start + encode_mails(view_mails(v@.take(i as int))),
        decreases v@.len() - i,
    {
        v[i].encode_into(out);
        proof {
            let next = view_mails(v@.take(i + 1));
            assert(next.drop_last() =~= view_mails(v@.take(i as int)));
            assert(next.last() == v@[i as int]@);
        }
        i = i + 1;
        assert(out@ =~= start + encode_mails(view_mails(v@.take(i as int))));
    }
    assert(v@.take(i as int) =~= v@);
}

/// Reads `n` mails stored one after the other from `pos`.
fn read_mails(b: &[u8], pos: usize, n: u32) -> (r: Option<(Vec<Mail>, usize)>)
    ensures
        match parse_mails_at(b@, pos as int, n as nat) {
            None => r is None,
            Some((ms, p)) => r matches Some((v, q)) && view_mails(v@) == ms && q as int == p,
        },
{
    let mut out: Vec<Mail> = Vec::new();
    let mut p: usize = pos;
    let mut i: u32 = 0;
    assert(view_mails(out@) =~= Seq::<MailView>::empty());
    while i < n
        invariant
            i <= n,
            parse_mails_at(b@, pos as int, i as nat) == Some((view_mails(out@), p as int)),
        decreases n - i,
    {
        match Mail::read_at(b, p) {
            Some((m, q)) => {
                let ghost before = out@;
                out.push(m);
                assert(view_mails(out@) =~= view_mails(before).push(m@));
                p = q;
                i = i + 1;
            },
            None => {
                proof {
                    lemma_parse_mails_none(b@, pos as int, (i + 1) as nat, n as nat);
                }
                return None;
            },
        }
    }
    Some((out, p))
}

impl MailAccount {
    /// The stored form of this account.
    pub fn to_bytes(&self) -> (r: Vec<u8>)
        ensures
            r@ == encode_account(self@),
    {
        let mut out: Vec<u8> = Vec::new();
        push_u32(&mut out, self.inbox.len() as u32);
        encode_mails_into(&self.inbox, &mut out);
        push_u32(&mut out, self.sent.len() as u32);
        encode_mails_into(&self.sent, &mut out);
        assert(out@ =~= encode_account(self@));
        out
    }

    /// Reads an account from bytes that hold exactly one stored account.
    pub fn try_from_slice(b: &[u8]) -> (r: Result<MailAccount, crate::error::MailError>)
        ensures
            match parse_account(b@) {
                Some(a) => r matches Ok(t) && t@ == a,
                None => r == Err::<MailAccount, crate::error::MailError>(
                    crate::error::MailError::MalformedCollection,
                ),
            },
    {
        reveal(parse_account);
        if b.len() < 4 {
            return Err(crate::error::MailError::MalformedCollection);
        }
        let n1 = read_u32(b, 0);
        assert(b@.skip(0) =~= b@);
        let (inbox, p) = match read_mails(b, 4, n1) {
            Some(x) => x,
            None => return Err(crate::error::MailError::MalformedCollection),
        };
        if p > b.len() || b.len() - p < 4 {
            return Err(crate::error::MailError::MalformedCollection);
        }
        let n2 = read_u32(b, p);
        let (sent, q) = match read_mails(b, p + 4, n2) {
            Some(x) => x,
            None => return Err(crate::error::MailError::MalformedCollection),
        };
        if q != b.len() {
            return Err(crate::error::MailError::MalformedCollection);
        }
        Ok(MailAccount { inbox, sent })
    }
}

/// A copy of `m`, field by field.
pub(crate) fn copy_mail(m: &Mail) -> (r: Mail)
    ensures
        r@ == m@,
{
    Mail {
        id: m.id.clone(),
        from_address: m.from_address.clone(),
        to_address: m.to_address.clone(),
        subject: m.subject.clone(),
        body: m.body.clone(),
        sent_date: m.sent_date.clone(),
    }
}

/// The stored form of a list of mails is at least one byte per mail, and at
/// least as long as the stored form of any one of them.
proof fn lemma_mails_len(ms: Seq<MailView>)
    ensures
        encode_mails(ms).len() >= ms.len(),
        forall|i: int|
            0 <= i < ms.len() ==> #[trigger] encode_mail(ms[i]).len() <= encode_mails(ms).len(),
    decreases ms.len(),
{
    if ms.len() > 0 {
        let init = ms.drop_last();
        lemma_mails_len(init);
        assert forall|i: int| 0 <= i < ms.len() implies #[trigger] encode_mail(ms[i]).len()
            <= encode_mails(ms).len() by {
            if i < ms.len() - 1 {
                assert(ms[i] == init[i]);
            }
        }
    }
}

/// An account whose stored form fits a 32-bit length has counts and fields that
/// fit their prefixes, so that its stored form is faithful.
pub proof fn lemma_small_account_fits(a: AccountView)
    requires
        encode_account(a).len() <= u32::MAX,
    ensures
        account_fits(a),
{
    lemma_mails_len(a.inbox);
    lemma_mails_len(a.sent);
    assert forall|i: int| 0 <= i < a.inbox.len() implies #[trigger] mail_fits(a.inbox[i]) by {
        assert(encode_mail(a.inbox[i]).len() <= encode_mails(a.inbox).len());
    }
    assert forall|i: int| 0 <= i < a.sent.len() implies #[trigger] mail_fits(a.sent[i]) by {
        assert(encode_mail(a.sent[i]).len() <= encode_mails(a.sent).len());
    }
}

/// The account with both lists empty is stored as its two zero counts: eight
/// bytes, so that it is never confused with an absent account.
pub proof fn lemma_empty_account_bytes()
    ensures
        encode_account(AccountView { inbox: Seq::empty(), sent: Seq::empty() }) == seq![
            0u8,
            0u8,
            0u8,
            0u8,
            0u8,
            0u8,
            0u8,
            0u8,
        ],
{
    let z: u32 = 0;
    assert((z as u8) == 0 && ((z >> 8u32) as u8) == 0 && ((z >> 16u32) as u8) == 0 && ((z
        >> 24u32) as u8) == 0) by (bit_vector)
        requires
            z == 0u32,
    ;
    assert(encode_mails(Seq::<MailView>::empty()) =~= Seq::<u8>::empty());
    assert(encode_account(AccountView { inbox: Seq::empty(), sent: Seq::empty() }) =~= seq![
        0u8,
        0u8,
        0u8,
        0u8,
        0u8,
        0u8,
        0u8,
        0u8,
    ]);
}

} // verus!
