//! An in-memory ledger of the program's accounts: mailbox head records and
//! immutable message records, each under its own address. Sends file a new
//! record and advance the recipient's head; reads walk the links back.
use crate::address::{id, mailbox_pda, mailbox_seeds, message_pda, message_seeds, pda, program_key};
use crate::instruction::{
    decode_send_direct_message, instruction_error, lemma_send_args, send_accounts, send_args,
    send_data, system_program_id, system_program_key, AccountMeta, Instruction, InstructionError,
};
use crate::program::{
    send_direct_message, ChatError, Mailbox, Message, MessageView, SendDirectMessage,
    MAX_STRING_BYTES,
};
use crate::pubkey::Pubkey;
use vstd::prelude::*;

verus! {

/// The last position below `n` whose entry is filed under `k`, or -1.
pub open spec fn index_below<V>(entries: Seq<(Pubkey, V)>, k: Pubkey, n: int) -> int
    decreases n,
{
    if n <= 0 {
        -1
    } else if entries[n - 1].0 == k {
        n - 1
    } else {
        index_below(entries, k, n - 1)
    }
}

/// The position of the entry filed under `k`, or -1.
pub open spec fn index_of<V>(entries: Seq<(Pubkey, V)>, k: Pubkey) -> int {
    index_below(entries, k, entries.len() as int)
}

/// No two entries are filed under the same key.
pub open spec fn unique_keys<V>(entries: Seq<(Pubkey, V)>) -> bool {
    forall|i: int, j: int|
        0 <= i < j < entries.len() ==> #[trigger] entries[i].0 != #[trigger] entries[j].0
}

/// The records reached from `head` by following the links, newest first,
/// each taken only from a position below `limit` and below the one before.
pub open spec fn chain(msgs: Seq<(Pubkey, Message)>, head: Option<Pubkey>, limit: nat) -> Seq<
    (Pubkey, MessageView),
>
    decreases limit,
{
    match head {
        None => Seq::empty(),
        Some(k) => {
            let i = index_of(msgs, k);
            if 0 <= i < limit {
                seq![(k, msgs[i].1@)] + chain(msgs, msgs[i].1.inbox, i as nat)
            } else {
                Seq::empty()
            }
        },
    }
}

/// The values of a list of addressed records.
pub open spec fn records_view(s: Seq<(Pubkey, Message)>) -> Seq<(Pubkey, MessageView)> {
    s.map_values(|e: (Pubkey, Message)| (e.0, e.1@))
}

proof fn lemma_index_below<V>(entries: Seq<(Pubkey, V)>, k: Pubkey, n: int)
    requires
        0 <= n <= entries.len(),
    ensures
        -1 <= index_below(entries, k, n) < n,
        index_below(entries, k, n) >= 0 ==> entries[index_below(entries, k, n)].0 == k,
        index_below(entries, k, n) == -1 ==> forall|j: int| 0 <= j < n ==> entries[j].0 != k,
        forall|j: int| index_below(entries, k, n) < j < n ==> entries[j].0 != k,
    decreases n,
{
    if n > 0 {
        lemma_index_below(entries, k, n - 1);
    }
}

/// Where keys are unique, the entry filed under a key is found at its place.
proof fn lemma_index_of_unique<V>(entries: Seq<(Pubkey, V)>, i: int)
    requires
        unique_keys(entries),
        0 <= i < entries.len(),
    ensures
        index_of(entries, entries[i].0) == i,
{
    let k = entries[i].0;
    lemma_index_below(entries, k, entries.len() as int);
    let r = index_of(entries, k);
    if r != i {
        if r < i {
            assert(entries[r].0 != entries[i].0);
        }
    }
}

/// Appending an entry does not move the entries below it.
proof fn lemma_index_below_push<V>(entries: Seq<(Pubkey, V)>, e: (Pubkey, V), k: Pubkey, n: int)
    requires
        n <= entries.len(),
    ensures
        index_below(entries.push(e), k, n) == index_below(entries, k, n),
    decreases n,
{
    if n > 0 {
        lemma_index_below_push(entries, e, k, n - 1);
    }
}

proof fn lemma_index_of_push<V>(entries: Seq<(Pubkey, V)>, e: (Pubkey, V), k: Pubkey)
    ensures
        index_of(entries.push(e), k) == if e.0 == k {
            entries.len() as int
        } else {
            index_of(entries, k)
        },
{
    let n = entries.len() as int;
    assert(entries.push(e)[n] == e);
    lemma_index_below_push(entries, e, k, n);
}

/// Replacing an entry by one under the same key moves no entry.
proof fn lemma_index_below_update<V>(
    entries: Seq<(Pubkey, V)>,
    p: int,
    e: (Pubkey, V),
    k: Pubkey,
    n: int,
)
    requires
        0 <= p < entries.len(),
        e.0 == entries[p].0,
        n <= entries.len(),
    ensures
        index_below(entries.update(p, e), k, n) == index_below(entries, k, n),
    decreases n,
{
    if n > 0 {
        lemma_index_below_update(entries, p, e, k, n - 1);
    }
}

/// A chain read below the old length is not changed by a record appended
/// under a fresh address.
proof fn lemma_chain_push(msgs: Seq<(Pubkey, Message)>, e: (Pubkey, Message), head: Option<Pubkey>, limit: nat)
    requires
        limit <= msgs.len(),
        index_of(msgs, e.0) == -1,
    ensures
        chain(msgs.push(e), head, limit) == chain(msgs, head, limit),
    decreases limit,
{
    if let Some(k) = head {
        lemma_index_of_push(msgs, e, k);
        let i = index_of(msgs, k);
        lemma_index_below(msgs, k, msgs.len() as int);
        if 0 <= i < limit {
            assert(msgs.push(e)[i] == msgs[i]);
            lemma_chain_push(msgs, e, msgs[i].1.inbox, i as nat);
        }
    }
}

/// Why the ledger refuses a send.
#[derive(Clone, Copy, Debug, PartialEq, Eq)]
pub enum LedgerError {
    /// The program derives no address for the recipient's mailbox or for the
    /// message seed (a seed longer than thirty-two bytes has none).
    NoAddress,
    /// The message address is already held by an account, or is the
    /// mailbox's own address.
    AccountInUse,
    /// The program refused the message.
    Chat(ChatError),
}

/// The accounts of the messaging program. Mailboxes and message records are
/// kept under their addresses; message records in the order they were filed.
pub struct Ledger {
    mailboxes: Vec<(Pubkey, Mailbox)>,
    messages: Vec<(Pubkey, Message)>,
}

impl Ledger {
    /// The mailbox stored at address `a`, if any.
    pub closed spec fn mailbox_at(self, a: Pubkey) -> Option<Mailbox> {
        let i = index_of(self.mailboxes@, a);
        if i >= 0 {
            Some(self.mailboxes@[i].1)
        } else {
            None
        }
    }

    /// The message record stored at address `a`, if any.
    pub closed spec fn record_at(self, a: Pubkey) -> Option<MessageView> {
        let i = index_of(self.messages@, a);
        if i >= 0 {
            Some(self.messages@[i].1@)
        } else {
            None
        }
    }

    /// Some account is stored at address `a`.
    pub closed spec fn holds(self, a: Pubkey) -> bool {
        self.mailbox_at(a) is Some || self.record_at(a) is Some
    }

    /// The records of a mailbox whose head is `head`, newest first.
    pub closed spec fn chain_from(self, head: Option<Pubkey>) -> Seq<(Pubkey, MessageView)> {
        chain(self.messages@, head, self.messages@.len())
    }

    /// The head of the mailbox of `owner`: `None` while it holds no message.
    pub closed spec fn head(self, owner: Pubkey) -> Option<Pubkey> {
        match pda(mailbox_seeds(owner)) {
            Some(a) => match self.mailbox_at(a) {
                Some(mb) => mb.inbox,
                None => None,
            },
            None => None,
        }
    }

    /// The messages in the mailbox of `owner`, newest first, each with its
    /// address.
    pub closed spec fn inbox(self, owner: Pubkey) -> Seq<(Pubkey, MessageView)> {
        self.chain_from(self.head(owner))
    }

    /// Addresses are unique and disjoint between the two kinds of account;
    /// each record links only to a record filed before it, and each mailbox
    /// head names a stored record.
    pub closed spec fn wf(self) -> bool {
        let mbs = self.mailboxes@;
        let msgs = self.messages@;
        &&& unique_keys(mbs)
        &&& unique_keys(msgs)
        &&& forall|i: int, j: int|
            0 <= i < mbs.len() && 0 <= j < msgs.len() ==> #[trigger] mbs[i].0 != #[trigger] msgs[j].0
        &&& forall|i: int|
            0 <= i < msgs.len() ==> match #[trigger] msgs[i].1.inbox {
                Some(k) => 0 <= index_of(msgs, k) < i,
                None => true,
            }
        &&& forall|i: int|
            0 <= i < mbs.len() ==> match #[trigger] mbs[i].1.inbox {
                Some(k) => 0 <= index_of(msgs, k),
                None => true,
            }
    }

    /// What a send of ciphertext `c` to `to` under the message seed `seed`
    /// returns: the address of the new record, or the reason it is refused.
    pub closed spec fn send_result(self, to: Pubkey, seed: Seq<u8>, c: Seq<u8>) -> Result<
        Pubkey,
        LedgerError,
    > {
        match (pda(mailbox_seeds(to)), pda(message_seeds(seed))) {
            (Some(a), Some(k)) => if k == a || self.holds(k) || self.record_at(a) is Some {
                Err(LedgerError::AccountInUse)
            } else if c.len() > MAX_STRING_BYTES {
                Err(LedgerError::Chat(ChatError::MessageTextTooLarge))
            } else {
                Ok(k)
            },
            _ => Err(LedgerError::NoAddress),
        }
    }

    /// `next` is this ledger once `from` has filed ciphertext `c` for `to` as
    /// a new record at the free address `k`: the record links to the old head
    /// and the mailbox, created if absent, now names the record.
    pub closed spec fn appended(self, next: Ledger, from: Pubkey, to: Pubkey, k: Pubkey, c: Seq<u8>) -> bool {
        match pda(mailbox_seeds(to)) {
            None => false,
            Some(a) => {
                let i = index_of(self.mailboxes@, a);
                let filed = Mailbox { inbox: Some(k) };
                &&& !self.holds(k)
                &&& k != a
                &&& self.record_at(a) is None
                &&& next.messages@.len() == self.messages@.len() + 1
                &&& next.messages@.drop_last() == self.messages@
                &&& next.messages@.last().0 == k
                &&& next.messages@.last().1@ == (MessageView {
                    from,
                    inbox: self.head(to),
                    ciphertext: c,
                })
                &&& if i >= 0 {
                    next.mailboxes@ == self.mailboxes@.update(i, (a, filed))
                } else {
                    next.mailboxes@ == self.mailboxes@.push((a, filed))
                }
            },
        }
    }

    /// A ledger that holds no account.
    pub fn new() -> (r: Ledger)
        ensures
            r.wf(),
            forall|a: Pubkey| !r.holds(a),
    {
        Ledger { mailboxes: Vec::new(), messages: Vec::new() }
    }

    /// The position of the mailbox at `a`.
    fn find_mailbox(&self, a: &Pubkey) -> (r: Option<usize>)
        ensures
            match r {
                Some(i) => i == index_of(self.mailboxes@, *a) && i < self.mailboxes@.len(),
                None => index_of(self.mailboxes@, *a) == -1,
            },
    {
        let mut i: usize = self.mailboxes.len();
        while i > 0
            invariant
                i <= self.mailboxes@.len(),
                index_of(self.mailboxes@, *a) == index_below(self.mailboxes@, *a, i as int),
            decreases i,
        {
            if self.mailboxes[i - 1].0.same_as(a) {
                return Some(i - 1);
            }
            i = i - 1;
        }
        None
    }

    /// The position of the message record at `a`.
    fn find_message(&self, a: &Pubkey) -> (r: Option<usize>)
        ensures
            match r {
                Some(i) => i == index_of(self.messages@, *a) && i < self.messages@.len(),
                None => index_of(self.messages@, *a) == -1,
            },
    {
        let mut i: usize = self.messages.len();
        while i > 0
            invariant
                i <= self.messages@.len(),
                index_of(self.messages@, *a) == index_below(self.messages@, *a, i as int),
            decreases i,
        {
            if self.messages[i - 1].0.same_as(a) {
                return Some(i - 1);
            }
            i = i - 1;
        }
        None
    }

    /// The mailbox stored at address `a`, if any.
    pub fn mailbox(&self, a: &Pubkey) -> (r: Option<Mailbox>)
        ensures
            r == self.mailbox_at(*a),
    {
        match self.find_mailbox(a) {
            Some(i) => Some(self.mailboxes[i].1),
            None => None,
        }
    }

    /// The message record stored at address `a`, if any.
    pub fn record(&self, a: &Pubkey) -> (r: Option<Message>)
        ensures
            match r {
                Some(m) => self.record_at(*a) == Some(m@),
                None => self.record_at(*a) is None,
            },
    {
        match self.find_message(a) {
            Some(i) => Some(self.messages[i].1.duplicate()),
            None => None,
        }
    }

    /// The records of a mailbox whose head is `head`, newest first: from the
    /// head, each record's link names the next.
    fn walk(&self, head: Option<Pubkey>) -> (r: Vec<(Pubkey, Message)>)
        ensures
            records_view(r@) == self.chain_from(head),
    {
        let msgs = Ghost(self.messages@);
        let mut out: Vec<(Pubkey, Message)> = Vec::new();
        let mut cur = head;
        let mut limit: usize = self.messages.len();
        loop
            invariant
                msgs@ == self.messages@,
                limit <= msgs@.len(),
                records_view(out@) + chain(msgs@, cur, limit as nat) == chain(
                    msgs@,
                    head,
                    msgs@.len(),
                ),
            ensures
                records_view(out@) == chain(msgs@, head, msgs@.len()),
            decreases limit,
        {
            let k = match cur {
                Some(k) => k,
                None => {
                    assert(records_view(out@) + Seq::empty() =~= records_view(out@));
                    break;
                },
            };
            let i = match self.find_message(&k) {
                Some(i) => i,
                None => {
                    assert(records_view(out@) + Seq::empty() =~= records_view(out@));
                    break;
                },
            };
            if i >= limit {
                assert(records_view(out@) + Seq::empty() =~= records_view(out@));
                break;
            }
            let m = self.messages[i].1.duplicate();
            let next = m.inbox;
            let ghost before = records_view(out@);
            out.push((k, m));
            assert(records_view(out@) =~= before.push((k, msgs@[i as int].1@)));
            assert(chain(msgs@, cur, limit as nat) == seq![(k, msgs@[i as int].1@)] + chain(
                msgs@,
                next,
                i as nat,
            ));
            assert(records_view(out@) + chain(msgs@, next, i as nat) =~= before + chain(
                msgs@,
                cur,
                limit as nat,
            ));
            cur = next;
            limit = i;
        }
        out
    }

    /// The messages in the mailbox of `owner`, newest first, each with its
    /// address; none where the owner has no mailbox.
    pub fn read_all(&self, owner: &Pubkey) -> (r: Vec<(Pubkey, Message)>)
        ensures
            records_view(r@) == self.inbox(*owner),
    {
        let head = match mailbox_pda(owner) {
            Some(a) => match self.mailbox(&a) {
                Some(mb) => mb.inbox,
                None => None,
            },
            None => None,
        };
        self.walk(head)
    }
}

impl Ledger {
    /// Files ciphertext `c` from `from` in the mailbox of `to` as a new
    /// record at the address derived from `message_seed`, and returns that
    /// address. The mailbox is created on the first send. A refused send
    /// changes nothing.
    pub fn append(&mut self, from: Pubkey, to: Pubkey, message_seed: &[u8], ciphertext: Vec<u8>) -> (r: Result<Pubkey, LedgerError>)
        requires
            old(self).wf(),
        ensures
            final(self).wf(),
            r == old(self).send_result(to, message_seed@, ciphertext@),
            match r {
                Ok(k) => {
                    &&& old(self).appended(*final(self), from, to, k, ciphertext@)
                    &&& final(self).head(to) == Some(k)
                    &&& final(self).inbox(to) == seq![
                        (k, MessageView { from, inbox: old(self).head(to), ciphertext: ciphertext@ }),
                    ] + old(self).inbox(to)
                },
                Err(_) => *final(self) == *old(self),
            },
    {
        let mailbox_key = match mailbox_pda(&to) {
            Some(a) => a,
            None => return Err(LedgerError::NoAddress),
        };
        let message_key = match message_pda(message_seed) {
            Some(k) => k,
            None => return Err(LedgerError::NoAddress),
        };
        if message_key.same_as(&mailbox_key) || self.find_mailbox(&message_key).is_some()
            || self.find_message(&message_key).is_some() || self.find_message(
            &mailbox_key,
        ).is_some() {
            return Err(LedgerError::AccountInUse);
        }
        let slot = self.find_mailbox(&mailbox_key);
        let mailbox = match slot {
            Some(i) => self.mailboxes[i].1,
            None => Mailbox { inbox: None },
        };
        let mut context = SendDirectMessage {
            from,
            to,
            mailbox,
            message_key,
            message: Message { from, inbox: None, ciphertext: Vec::new() },
        };
        match send_direct_message(&mut context, ciphertext) {
            Ok(()) => {},
            Err(e) => return Err(LedgerError::Chat(e)),
        }
        let ghost before = *self;
        let SendDirectMessage { mailbox, message, .. } = context;
        match slot {
            Some(i) => self.mailboxes.set(i, (mailbox_key, mailbox)),
            None => self.mailboxes.push((mailbox_key, mailbox)),
        }
        self.messages.push((message_key, message));
        proof {
            assert(self.messages@.drop_last() =~= before.messages@);
            assert(before.appended(*self, from, to, message_key, ciphertext@));
            lemma_appended_wf(before, *self, from, to, message_key, ciphertext@);
            lemma_append_extends_inbox(before, *self, from, to, message_key, ciphertext@);
        }
        Ok(message_key)
    }
}

/// Filing a record keeps the ledger well formed.
proof fn lemma_appended_wf(l: Ledger, next: Ledger, from: Pubkey, to: Pubkey, k: Pubkey, c: Seq<u8>)
    requires
        l.wf(),
        l.appended(next, from, to, k, c),
    ensures
        next.wf(),
{
    let a = pda(mailbox_seeds(to))->Some_0;
    let mbs = l.mailboxes@;
    let msgs = l.messages@;
    let mbs2 = next.mailboxes@;
    let msgs2 = next.messages@;
    let n = msgs.len() as int;
    let i = index_of(mbs, a);
    lemma_index_below(mbs, a, mbs.len() as int);
    lemma_index_below(msgs, a, n);
    lemma_index_below(mbs, k, mbs.len() as int);
    lemma_index_below(msgs, k, n);
    assert(msgs2 =~= msgs.push(msgs2[n]));
    assert forall|x: Pubkey| x != k implies index_of(msgs2, x) == index_of(msgs, x) by {
        lemma_index_of_push(msgs, msgs2[n], x);
    }
    lemma_index_of_push(msgs, msgs2[n], k);
    assert forall|j: int| 0 <= j < n implies msgs2[j] == msgs[j] by {
        assert(msgs2[j] == msgs2.drop_last()[j]);
    }
    assert forall|j: int| 0 <= j < n implies msgs[j].0 != k by {}
    assert forall|j: int| 0 <= j < mbs.len() implies mbs[j].0 != k by {}
    assert forall|j: int| 0 <= j < n implies msgs[j].0 != a by {}
    // the new record's link names a stored record
    if let Some(h) = l.head(to) {
        let p = index_of(mbs, a);
        assert(mbs[p].1.inbox == Some(h));
        lemma_index_below(msgs, h, n);
        assert(0 <= index_of(msgs, h) < n);
        assert(h != k);
    }
    assert(unique_keys(msgs2));
    if i >= 0 {
        assert forall|j: int| 0 <= j < mbs2.len() && j != i implies mbs2[j] == mbs[j] by {}
        assert(unique_keys(mbs2));
    } else {
        assert forall|j: int| 0 <= j < mbs.len() implies mbs2[j] == mbs[j] by {}
        assert(mbs2[mbs.len() as int].0 == a);
        assert(unique_keys(mbs2));
    }
    assert forall|j: int|
        0 <= j < msgs2.len() implies match #[trigger] msgs2[j].1.inbox {
        Some(x) => 0 <= index_of(msgs2, x) < j,
        None => true,
    } by {
        if j < n {
            assert(msgs2[j] == msgs[j]);
            if let Some(x) = msgs[j].1.inbox {
                assert(0 <= index_of(msgs, x) < j);
                assert(x != k);
            }
        }
    }
    assert forall|j: int|
        0 <= j < mbs2.len() implies match #[trigger] mbs2[j].1.inbox {
        Some(x) => 0 <= index_of(msgs2, x),
        None => true,
    } by {
        if (i >= 0 && j == i) || (i < 0 && j == mbs.len()) {
        } else {
            assert(mbs2[j] == mbs[j]);
            if let Some(x) = mbs[j].1.inbox {
                assert(0 <= index_of(msgs, x));
                assert(x != k);
            }
        }
    }
}

/// A chain read under a longer limit after a record was appended under a
/// fresh address is the chain read before, where the head is stored.
proof fn lemma_chain_push_grow(msgs: Seq<(Pubkey, Message)>, e: (Pubkey, Message), head: Option<Pubkey>)
    requires
        index_of(msgs, e.0) == -1,
        head matches Some(h) ==> index_of(msgs, h) >= 0,
    ensures
        chain(msgs.push(e), head, (msgs.len() + 1) as nat) == chain(msgs, head, msgs.len()),
{
    if let Some(h) = head {
        lemma_index_below(msgs, h, msgs.len() as int);
        lemma_index_of_push(msgs, e, h);
        let j = index_of(msgs, h);
        assert(msgs.push(e)[j] == msgs[j]);
        lemma_chain_push(msgs, e, msgs[j].1.inbox, j as nat);
    }
}

/// After a send to `to`, its mailbox holds the new record first and then
/// everything it held before, and its head is the new record; every mailbox
/// at another address reads as before.
pub proof fn lemma_append_extends_inbox(l: Ledger, next: Ledger, from: Pubkey, to: Pubkey, k: Pubkey, c: Seq<u8>)
    requires
        l.wf(),
        l.appended(next, from, to, k, c),
    ensures
        next.head(to) == Some(k),
        next.inbox(to) == seq![(k, MessageView { from, inbox: l.head(to), ciphertext: c })]
            + l.inbox(to),
        forall|o: Pubkey|
            pda(mailbox_seeds(o)) != pda(mailbox_seeds(to)) ==> #[trigger] next.head(o) == l.head(
                o,
            ),
        forall|o: Pubkey|
            pda(mailbox_seeds(o)) != pda(mailbox_seeds(to)) ==> #[trigger] next.inbox(o)
                == l.inbox(o),
{
    let a = pda(mailbox_seeds(to))->Some_0;
    let mbs = l.mailboxes@;
    let msgs = l.messages@;
    let mbs2 = next.mailboxes@;
    let msgs2 = next.messages@;
    let n = msgs.len() as int;
    let i = index_of(mbs, a);
    let e = msgs2[n];
    lemma_index_below(mbs, a, mbs.len() as int);
    lemma_index_below(msgs, k, n);
    assert(msgs2 =~= msgs.push(e));
    lemma_index_of_push(msgs, e, k);
    let filed = (a, Mailbox { inbox: Some(k) });
    // where the mailboxes are looked up
    assert forall|b: Pubkey| #[trigger] index_of(mbs2, b) == if b == a {
        if i >= 0 { i } else { mbs.len() as int }
    } else {
        index_of(mbs, b)
    } by {
        if i >= 0 {
            lemma_index_below_update(mbs, i, filed, b, mbs.len() as int);
            if b == a {
                lemma_index_of_unique(mbs, i);
            }
        } else {
            lemma_index_of_push(mbs, filed, b);
        }
    }
    assert(next.mailbox_at(a) == Some(filed.1));
    // the mailbox of `to`
    if let Some(h) = l.head(to) {
        lemma_index_below(msgs, h, n);
    }
    lemma_chain_push(msgs, e, l.head(to), n as nat);
    assert(next.inbox(to) =~= seq![(k, e.1@)] + chain(msgs2, l.head(to), n as nat));
    if i < 0 {
        assert(l.head(to) is None);
    }
    // the others
    assert forall|o: Pubkey| pda(mailbox_seeds(o)) != pda(mailbox_seeds(to)) implies next.inbox(o)
        == l.inbox(o) && next.head(o) == l.head(o) by {
        if let Some(b) = pda(mailbox_seeds(o)) {
            assert(b != a);
            lemma_index_below(mbs, b, mbs.len() as int);
            let p = index_of(mbs, b);
            assert(index_of(mbs2, b) == p);
            if p >= 0 {
                assert(mbs2[p] == mbs[p]);
            }
            assert(next.mailbox_at(b) == l.mailbox_at(b));
            if let Some(h) = l.head(o) {
                assert(mbs[p].1.inbox == Some(h));
            }
            lemma_chain_push_grow(msgs, e, l.head(o));
        }
    }
}

/// In a well-formed ledger each record of a chain links to the record after
/// it, and the oldest links to nothing.
proof fn lemma_chain_linked(msgs: Seq<(Pubkey, Message)>, head: Option<Pubkey>, limit: nat)
    requires
        limit <= msgs.len(),
        forall|i: int|
            0 <= i < msgs.len() ==> match #[trigger] msgs[i].1.inbox {
                Some(k) => 0 <= index_of(msgs, k) < i,
                None => true,
            },
        head matches Some(h) ==> 0 <= index_of(msgs, h) < limit,
    ensures
        ({
            let s = chain(msgs, head, limit);
            &&& head is None <==> s.len() == 0
            &&& s.len() > 0 ==> s[0].0 == head->Some_0
            &&& forall|j: int| 0 <= j < s.len() - 1 ==> #[trigger] s[j].1.inbox == Some(s[j + 1].0)
            &&& s.len() > 0 ==> s.last().1.inbox is None
        }),
    decreases limit,
{
    if let Some(h) = head {
        let i = index_of(msgs, h);
        let next = msgs[i].1.inbox;
        lemma_chain_linked(msgs, next, i as nat);
        let rest = chain(msgs, next, i as nat);
        let s = chain(msgs, head, limit);
        assert(s == seq![(h, msgs[i].1@)] + rest);
        assert forall|j: int| 0 <= j < s.len() - 1 implies #[trigger] s[j].1.inbox == Some(
            s[j + 1].0,
        ) by {
            if j > 0 {
                assert(s[j] == rest[j - 1]);
                assert(s[j + 1] == rest[j]);
            }
        }
    }
}

/// In a well-formed ledger every mailbox reads as a linked list: each
/// message names the one filed before it as its previous, the oldest names
/// none, and the newest is the mailbox's head.
pub proof fn lemma_inbox_linked(l: Ledger, owner: Pubkey)
    requires
        l.wf(),
    ensures
        ({
            let s = l.inbox(owner);
            &&& l.head(owner) is None <==> s.len() == 0
            &&& s.len() > 0 ==> l.head(owner) == Some(s[0].0)
            &&& forall|j: int| 0 <= j < s.len() - 1 ==> #[trigger] s[j].1.inbox == Some(s[j + 1].0)
            &&& s.len() > 0 ==> s.last().1.inbox is None
        }),
{
    let msgs = l.messages@;
    if let Some(h) = l.head(owner) {
        let a = pda(mailbox_seeds(owner))->Some_0;
        lemma_index_below(l.mailboxes@, a, l.mailboxes@.len() as int);
        let p = index_of(l.mailboxes@, a);
        assert(l.mailboxes@[p].1.inbox == Some(h));
        lemma_index_below(msgs, h, msgs.len() as int);
    }
    lemma_chain_linked(msgs, l.head(owner), msgs.len());
}

/// Sends filed one after another in a mailbox that held nothing: `ls[i + 1]`
/// is `ls[i]` after `sends[i]`, a sender, the address of its record and the
/// ciphertext, went to `to`. The mailbox then reads exactly those records,
/// newest first; each names the one filed before it as its previous and the
/// oldest names none.
#[verifier::rlimit(40)]
pub proof fn lemma_appends_fill_inbox(ls: Seq<Ledger>, to: Pubkey, sends: Seq<(Pubkey, Pubkey, Seq<u8>)>)
    requires
        ls.len() == sends.len() + 1,
        ls[0].wf(),
        ls[0].inbox(to).len() == 0,
        forall|i: int|
            0 <= i < sends.len() ==> #[trigger] ls[i].appended(
                ls[i + 1],
                sends[i].0,
                to,
                sends[i].1,
                sends[i].2,
            ),
    ensures
        ls.last().wf(),
        ls.last().inbox(to).len() == sends.len(),
        forall|j: int|
            0 <= j < sends.len() ==> #[trigger] ls.last().inbox(to)[j].0 == sends[sends.len() - 1
                - j].1 && ls.last().inbox(to)[j].1.from == sends[sends.len() - 1 - j].0
                && ls.last().inbox(to)[j].1.ciphertext == sends[sends.len() - 1 - j].2,
        forall|j: int|
            0 <= j < sends.len() - 1 ==> #[trigger] ls.last().inbox(to)[j].1.inbox == Some(
                ls.last().inbox(to)[j + 1].0,
            ),
        sends.len() > 0 ==> ls.last().inbox(to).last().1.inbox is None,
    decreases sends.len(),
{
    let n = sends.len() as int;
    if n > 0 {
        let ls0 = ls.drop_last();
        let sends0 = sends.drop_last();
        assert forall|i: int| 0 <= i < sends0.len() implies #[trigger] ls0[i].appended(
            ls0[i + 1],
            sends0[i].0,
            to,
            sends0[i].1,
            sends0[i].2,
        ) by {
            assert(ls0[i] == ls[i] && ls0[i + 1] == ls[i + 1] && sends0[i] == sends[i]);
            assert(ls[i].appended(ls[i + 1], sends[i].0, to, sends[i].1, sends[i].2));
        }
        lemma_appends_fill_inbox(ls0, to, sends0);
        let before = ls[n - 1];
        let after = ls[n];
        assert(ls0.last() == before);
        let (from, k, c) = sends[n - 1];
        assert(before.appended(after, from, to, k, c));
        lemma_appended_wf(before, after, from, to, k, c);
        lemma_append_extends_inbox(before, after, from, to, k, c);
        lemma_inbox_linked(after, to);
        let s0 = before.inbox(to);
        let s = after.inbox(to);
        assert(s0.len() == n - 1);
        assert(s.len() == n);
        assert(s == seq![(k, MessageView { from, inbox: before.head(to), ciphertext: c })] + s0);
        assert(ls.last() == after);
        assert forall|j: int| 0 <= j < n implies #[trigger] ls.last().inbox(to)[j].0 == sends[n
            - 1 - j].1 && ls.last().inbox(to)[j].1.from == sends[n - 1 - j].0 && ls.last().inbox(
            to,
        )[j].1.ciphertext == sends[n - 1 - j].2 by {
            if j > 0 {
                assert(s[j] == s0[j - 1]);
                assert(ls0.last().inbox(to)[j - 1].0 == sends0[(n - 1) - 1 - (j - 1)].1);
                assert(sends0[(n - 1) - 1 - (j - 1)] == sends[n - 1 - j]);
            }
        }
        assert(s.last().1.inbox is None);
        assert forall|j: int| 0 <= j < n - 1 implies #[trigger] s[j].1.inbox == Some(s[j + 1].0) by {}
    } else {
        assert(ls.last() == ls[0]);
    }
}

/// Why the program rejects a submitted instruction.
#[derive(Clone, Copy, Debug, PartialEq, Eq)]
pub enum ExecuteError {
    /// The instruction is addressed to another program.
    UnknownProgram,
    /// The instruction data is not a send.
    Instruction(InstructionError),
    /// Fewer than the five accounts of a send.
    NotEnoughAccountKeys,
    /// The sender did not sign.
    AccountNotSigner,
    /// The sender, the mailbox or the record is not marked writable.
    AccountNotMutable,
    /// The mailbox or the record is not at the address its seeds give.
    ConstraintSeeds,
    /// The last account is not the system program.
    InvalidProgramId,
    /// The accounts are valid and the ledger refused the send.
    Ledger(LedgerError),
}

impl Ledger {
    /// What executing an instruction for `program` with `accounts` and `data`
    /// returns: the arguments are read first, then the accounts are checked
    /// in order, then the send is filed.
    pub closed spec fn execute_result(self, program: Pubkey, accounts: Seq<AccountMeta>, data: Seq<u8>) -> Result<Pubkey, ExecuteError> {
        if program.bytes@ != program_key() {
            Err(ExecuteError::UnknownProgram)
        } else {
            match send_args(data) {
                None => Err(ExecuteError::Instruction(instruction_error(data))),
                Some((seed, c)) => if accounts.len() < 5 {
                    Err(ExecuteError::NotEnoughAccountKeys)
                } else if !accounts[0].is_signer {
                    Err(ExecuteError::AccountNotSigner)
                } else if !(accounts[0].is_writable && accounts[2].is_writable
                    && accounts[3].is_writable) {
                    Err(ExecuteError::AccountNotMutable)
                } else if pda(mailbox_seeds(accounts[1].pubkey)) != Some(accounts[2].pubkey) || pda(
                    message_seeds(seed),
                ) != Some(accounts[3].pubkey) {
                    Err(ExecuteError::ConstraintSeeds)
                } else if accounts[4].pubkey.bytes@ != system_program_key() {
                    Err(ExecuteError::InvalidProgramId)
                } else {
                    match self.send_result(accounts[1].pubkey, seed, c) {
                        Ok(k) => Ok(k),
                        Err(e) => Err(ExecuteError::Ledger(e)),
                    }
                },
            }
        }
    }

    /// Executes a submitted instruction of the messaging program: a send
    /// whose first account is the sender and second the recipient. A
    /// rejected instruction changes nothing.
    pub fn execute(&mut self, ix: &Instruction) -> (r: Result<Pubkey, ExecuteError>)
        requires
            old(self).wf(),
        ensures
            final(self).wf(),
            r == old(self).execute_result(ix.program_id, ix.accounts@, ix.data@),
            match r {
                Ok(k) => old(self).appended(
                    *final(self),
                    ix.accounts@[0].pubkey,
                    ix.accounts@[1].pubkey,
                    k,
                    send_args(ix.data@)->Some_0.1,
                ),
                Err(_) => *final(self) == *old(self),
            },
    {
        let program = id();
        if !ix.program_id.same_as(&program) {
            assert(ix.program_id.bytes@ == program_key() ==> ix.program_id.bytes =~= program.bytes);
            return Err(ExecuteError::UnknownProgram);
        }
        let (seed, ciphertext) = match decode_send_direct_message(ix.data.as_slice()) {
            Ok(args) => args,
            Err(e) => return Err(ExecuteError::Instruction(e)),
        };
        if ix.accounts.len() < 5 {
            return Err(ExecuteError::NotEnoughAccountKeys);
        }
        let sender = ix.accounts[0];
        let receiver = ix.accounts[1];
        let mailbox = ix.accounts[2];
        let message = ix.accounts[3];
        let system = ix.accounts[4];
        if !sender.is_signer {
            return Err(ExecuteError::AccountNotSigner);
        }
        if !(sender.is_writable && mailbox.is_writable && message.is_writable) {
            return Err(ExecuteError::AccountNotMutable);
        }
        let seeded = match (mailbox_pda(&receiver.pubkey), message_pda(seed.as_slice())) {
            (Some(a), Some(k)) => a.same_as(&mailbox.pubkey) && k.same_as(&message.pubkey),
            _ => false,
        };
        if !seeded {
            return Err(ExecuteError::ConstraintSeeds);
        }
        let system_program = system_program_id();
        if !system.pubkey.same_as(&system_program) {
            assert(system.pubkey.bytes@ == system_program_key() ==> system.pubkey.bytes
                =~= system_program.bytes);
            return Err(ExecuteError::InvalidProgramId);
        }
        match self.append(sender.pubkey, receiver.pubkey, seed.as_slice(), ciphertext) {
            Ok(k) => Ok(k),
            Err(e) => Err(ExecuteError::Ledger(e)),
        }
    }
}

/// The instruction that `send_direct_mesage` builds, for a message seed and
/// the record address derived from it, executes exactly as filing its
/// ciphertext directly: the program reads back the seed and ciphertext it
/// was given and accepts its accounts.
pub proof fn lemma_built_send_executes_as_append(
    l: Ledger,
    sender: Pubkey,
    receiver: Pubkey,
    seed: Seq<u8>,
    c: Seq<u8>,
    program: Pubkey,
    system: Pubkey,
)
    requires
        seed.len() <= u32::MAX,
        c.len() <= u32::MAX,
        program.bytes@ == program_key(),
        system.bytes@ == system_program_key(),
        pda(mailbox_seeds(receiver)) is Some,
        pda(message_seeds(seed)) is Some,
    ensures
        l.execute_result(
            program,
            send_accounts(
                sender,
                receiver,
                pda(mailbox_seeds(receiver))->Some_0,
                pda(message_seeds(seed))->Some_0,
                system,
            ),
            send_data(seed, c),
        ) == match l.send_result(receiver, seed, c) {
            Ok(k) => Ok(k),
            Err(e) => Err(ExecuteError::Ledger(e)),
        },
{
    let data = send_data(seed, c);
    assert(data.is_prefix_of(data)) by {
        assert(data.subrange(0, data.len() as int) =~= data);
    }
    lemma_send_args(seed, c, data);
}

} // verus!
