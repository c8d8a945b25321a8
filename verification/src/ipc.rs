//! Mailbox-based inter-process communication.
//!
//! Each recipient process id owns a FIFO message queue, created lazily on
//! the first send and persisting (possibly empty) afterwards. Sending
//! appends to the recipient's queue and never fails; receiving pops the
//! oldest message, or yields nothing for an empty or unknown mailbox.
//! Order is FIFO per recipient only; nothing is guaranteed across
//! mailboxes.

use vstd::prelude::*;

verus! {

/// A message: the sending process id and its text content.
pub struct Message {
    pub sender: u32,
    pub content: String,
}

/// Some mailbox entry carries exactly this recipient key.
pub open spec fn has_key(s: Seq<(u32, Vec<Message>)>, k: u32) -> bool {
    exists|i: int| 0 <= i < s.len() && (#[trigger] s[i]).0 == k
}

/// The index of the mailbox entry carrying this recipient key.
pub open spec fn idx_of(s: Seq<(u32, Vec<Message>)>, k: u32) -> int {
    choose|i: int| 0 <= i < s.len() && (#[trigger] s[i]).0 == k
}

/// Each recipient id keys at most one mailbox entry.
pub open spec fn keys_unique(s: Seq<(u32, Vec<Message>)>) -> bool {
    forall|i: int, j: int| 0 <= i < j < s.len() ==> (#[trigger] s[i]).0 != (#[trigger] s[j]).0
}

/// The abstract mailbox table of an entry list: each known recipient id
/// maps to its queued messages, oldest first.
pub open spec fn table_view(s: Seq<(u32, Vec<Message>)>) -> Map<u32, Seq<Message>> {
    Map::new(|k: u32| has_key(s, k), |k: u32| s[idx_of(s, k)].1@)
}

/// The mailbox table after a send: the message is appended to the tail of
/// the recipient's queue, which is created on demand.
pub open spec fn sent(m: Map<u32, Seq<Message>>, recipient: u32, msg: Message) -> Map<
    u32,
    Seq<Message>,
> {
    let q = if m.dom().contains(recipient) {
        m[recipient]
    } else {
        Seq::<Message>::empty()
    };
    m.insert(recipient, q.push(msg))
}

/// What a receive yields and leaves behind: the head of the recipient's
/// queue and the table with that head removed, or nothing and the table
/// unchanged when the mailbox is empty or unknown.
pub open spec fn received(m: Map<u32, Seq<Message>>, recipient: u32) -> (Option<Message>, Map<
    u32,
    Seq<Message>,
>) {
    if m.dom().contains(recipient) && m[recipient].len() > 0 {
        (Some(m[recipient][0]), m.insert(recipient, m[recipient].drop_first()))
    } else {
        (None::<Message>, m)
    }
}

/// With unique keys, the entry at `ii` is what the table maps its key to.
proof fn lemma_view_at(s: Seq<(u32, Vec<Message>)>, ii: int)
    requires
        keys_unique(s),
        0 <= ii < s.len(),
    ensures
        table_view(s).dom().contains(s[ii].0),
        table_view(s)[s[ii].0] == s[ii].1@,
        idx_of(s, s[ii].0) == ii,
{
    let k = s[ii].0;
    assert(has_key(s, k));
    let w = idx_of(s, k);
    assert(0 <= w < s.len() && s[w].0 == k);
    if w != ii {
        if w < ii {
            assert(s[w].0 != s[ii].0);
        } else {
            assert(s[ii].0 != s[w].0);
        }
    }
}

/// Replacing the entry at `ii` with one of the same key and queue `newq`
/// turns the table into the old table with that key rebound to `newq`.
proof fn lemma_table_replace(
    pre: Seq<(u32, Vec<Message>)>,
    post: Seq<(u32, Vec<Message>)>,
    ii: int,
    newq: Seq<Message>,
)
    requires
        keys_unique(pre),
        0 <= ii < pre.len(),
        post.len() == pre.len(),
        forall|j: int| 0 <= j < post.len() && j != ii ==> #[trigger] post[j] == pre[j],
        post[ii].0 == pre[ii].0,
        post[ii].1@ == newq,
    ensures
        keys_unique(post),
        table_view(post) =~= table_view(pre).insert(pre[ii].0, newq),
{
    let k0 = pre[ii].0;
    assert forall|i: int, j: int| 0 <= i < j < post.len() implies (#[trigger] post[i]).0 != (
    #[trigger] post[j]).0 by {
        assert(pre[i].0 != pre[j].0);
        assert(post[i].0 == pre[i].0 && post[j].0 == pre[j].0);
    }
    assert forall|k: u32| has_key(post, k) <==> has_key(pre, k) by {
        if has_key(post, k) {
            let w = idx_of(post, k);
            assert(0 <= w < post.len() && post[w].0 == k);
            assert(pre[w].0 == k);
            assert(has_key(pre, k));
        }
        if has_key(pre, k) {
            let w = idx_of(pre, k);
            assert(0 <= w < pre.len() && pre[w].0 == k);
            assert(post[w].0 == k);
            assert(has_key(post, k));
        }
    }
    lemma_view_at(pre, ii);
    lemma_view_at(post, ii);
    assert forall|k: u32| #[trigger] has_key(post, k) implies table_view(post)[k] == table_view(
        pre,
    ).insert(k0, newq)[k] by {
        if k == k0 {
            assert(table_view(post)[k] == post[ii].1@);
        } else {
            let w = idx_of(post, k);
            assert(0 <= w < post.len() && post[w].0 == k);
            assert(w != ii);
            assert(post[w] == pre[w]);
            lemma_view_at(pre, w);
            lemma_view_at(post, w);
            assert(table_view(post)[k] == post[w].1@);
            assert(table_view(pre)[k] == pre[w].1@);
        }
    }
    assert(table_view(post) =~= table_view(pre).insert(k0, newq));
}

/// Appending a fresh entry `(recipient, q)` to the list binds `recipient`
/// (previously unknown) to `q` in the table.
proof fn lemma_table_append(
    pre: Seq<(u32, Vec<Message>)>,
    post: Seq<(u32, Vec<Message>)>,
    recipient: u32,
    q: Seq<Message>,
)
    requires
        keys_unique(pre),
        !has_key(pre, recipient),
        post.len() == pre.len() + 1,
        forall|j: int| 0 <= j < pre.len() ==> #[trigger] post[j] == pre[j],
        post[pre.len() as int].0 == recipient,
        post[pre.len() as int].1@ == q,
    ensures
        keys_unique(post),
        table_view(post) =~= table_view(pre).insert(recipient, q),
{
    let n = pre.len() as int;
    assert forall|i: int, j: int| 0 <= i < j < post.len() implies (#[trigger] post[i]).0 != (
    #[trigger] post[j]).0 by {
        if j < n {
            assert(pre[i].0 != pre[j].0);
        } else {
            assert(post[i].0 == pre[i].0);
            if pre[i].0 == recipient {
                assert(has_key(pre, recipient));
            }
        }
    }
    lemma_view_at(post, n);
    assert forall|k: u32| has_key(post, k) <==> (has_key(pre, k) || k == recipient) by {
        if has_key(post, k) {
            let w = idx_of(post, k);
            assert(0 <= w < post.len() && post[w].0 == k);
            if w < n {
                assert(pre[w].0 == k);
                assert(has_key(pre, k));
            }
        }
        if has_key(pre, k) {
            let w = idx_of(pre, k);
            assert(0 <= w < pre.len() && pre[w].0 == k);
            assert(post[w].0 == k);
            assert(has_key(post, k));
        }
    }
    assert forall|k: u32| #[trigger] has_key(post, k) implies table_view(post)[k] == table_view(
        pre,
    ).insert(recipient, q)[k] by {
        if k == recipient {
            assert(table_view(post)[k] == post[n].1@);
        } else {
            let w = idx_of(post, k);
            assert(0 <= w < post.len() && post[w].0 == k);
            assert(w != n);
            assert(post[w] == pre[w]);
            lemma_view_at(pre, w);
            lemma_view_at(post, w);
            assert(table_view(post)[k] == post[w].1@);
            assert(table_view(pre)[k] == pre[w].1@);
        }
    }
    assert(table_view(post) =~= table_view(pre).insert(recipient, q));
}

/// The mailbox table: per-recipient FIFO queues keyed by process id.
pub struct IPC {
    boxes: Vec<(u32, Vec<Message>)>,
}

impl View for IPC {
    type V = Map<u32, Seq<Message>>;

    closed spec fn view(&self) -> Map<u32, Seq<Message>> {
        table_view(self.boxes@)
    }
}

impl IPC {
    /// The invariant: each recipient id keys at most one mailbox.
    pub closed spec fn wf(self) -> bool {
        keys_unique(self.boxes@)
    }

    /// A fresh IPC layer with no mailboxes.
    pub fn new() -> (r: IPC)
        ensures
            r.wf(),
            r@ =~= Map::<u32, Seq<Message>>::empty(),
    {
        let r = IPC { boxes: Vec::new() };
        proof {
            assert forall|k: u32| !(#[trigger] r@.dom().contains(k)) by {
                assert(!has_key(r.boxes@, k));
            }
            assert(r@ =~= Map::<u32, Seq<Message>>::empty());
        }
        r
    }

    /// Appends a message from `sender` to the tail of `recipient`'s
    /// mailbox, creating the mailbox on demand. Never fails.
    pub fn send_message(&mut self, sender: u32, recipient: u32, content: String)
        requires
            old(self).wf(),
        ensures
            final(self).wf(),
            final(self)@ =~= sent(old(self)@, recipient, (Message { sender, content })),
    {
        let ghost pre = self.boxes@;
        let n = self.boxes.len();
        let mut i: usize = 0;
        while i < n
            invariant
                old(self).wf(),
                *self == *old(self),
                pre == self.boxes@,
                n == self.boxes@.len(),
                i <= n,
                forall|j: int| 0 <= j < i ==> (#[trigger] self.boxes@[j]).0 != recipient,
            decreases n - i,
        {
            if self.boxes[i].0 == recipient {
                let ghost ii = i as int;
                let ghost msg = Message { sender, content };
                let mut entry = self.boxes.remove(i);
                entry.1.push(Message { sender, content });
                let ghost e2 = entry;
                self.boxes.insert(i, entry);
                proof {
                    let post = self.boxes@;
                    assert(e2.0 == pre[ii].0);
                    assert(e2.1@ == pre[ii].1@.push(msg));
                    assert(post == pre.remove(ii).insert(ii, e2));
                    pre.remove_ensures(ii);
                    pre.remove(ii).insert_ensures(ii, e2);
                    assert forall|j: int| 0 <= j < post.len() && j != ii implies #[trigger] post[j]
                        == pre[j] by {
                        if j < ii {
                            assert(pre.remove(ii)[j] == pre[j]);
                        } else {
                            assert(pre.remove(ii)[j - 1] == pre[j]);
                        }
                    }
                    assert(post[ii] == e2);
                    lemma_view_at(pre, ii);
                    lemma_table_replace(pre, post, ii, pre[ii].1@.push(msg));
                }
                return ;
            }
            i += 1;
        }
        let ghost msg = Message { sender, content };
        let mut q: Vec<Message> = Vec::new();
        q.push(Message { sender, content });
        self.boxes.push((recipient, q));
        proof {
            let post = self.boxes@;
            assert(!has_key(pre, recipient));
            assert(post[pre.len() as int].1@ == Seq::<Message>::empty().push(msg));
            lemma_table_append(pre, post, recipient, Seq::<Message>::empty().push(msg));
            assert(!old(self)@.dom().contains(recipient));
        }
    }

    /// Pops the oldest message of `recipient`'s mailbox, or yields `None`
    /// when the mailbox is empty or unknown. The mailbox itself persists
    /// once created, even when emptied.
    pub fn receive_message(&mut self, recipient: u32) -> (r: Option<Message>)
        requires
            old(self).wf(),
        ensures
            final(self).wf(),
            r == received(old(self)@, recipient).0,
            final(self)@ =~= received(old(self)@, recipient).1,
    {
        let ghost pre = self.boxes@;
        let n = self.boxes.len();
        let mut i: usize = 0;
        while i < n
            invariant
                old(self).wf(),
                *self == *old(self),
                pre == self.boxes@,
                n == self.boxes@.len(),
                i <= n,
                forall|j: int| 0 <= j < i ==> (#[trigger] self.boxes@[j]).0 != recipient,
            decreases n - i,
        {
            if self.boxes[i].0 == recipient {
                let ghost ii = i as int;
                proof {
                    lemma_view_at(pre, ii);
                }
                let mut entry = self.boxes.remove(i);
                if entry.1.len() == 0 {
                    let ghost e2 = entry;
                    self.boxes.insert(i, entry);
                    proof {
                        assert(e2 == pre[ii]);
                        assert(self.boxes@ == pre.remove(ii).insert(ii, e2));
                        pre.remove_ensures(ii);
                        pre.remove(ii).insert_ensures(ii, e2);
                        assert(self.boxes@ =~= pre);
                        assert(old(self)@.dom().contains(recipient));
                        assert(old(self)@[recipient].len() == 0);
                    }
                    return None;
                }
                let m = entry.1.remove(0);
                let ghost e2 = entry;
                self.boxes.insert(i, entry);
                proof {
                    let post = self.boxes@;
                    assert(e2.0 == pre[ii].0);
                    assert(e2.1@ =~= pre[ii].1@.drop_first());
                    assert(post == pre.remove(ii).insert(ii, e2));
                    pre.remove_ensures(ii);
                    pre.remove(ii).insert_ensures(ii, e2);
                    assert forall|j: int| 0 <= j < post.len() && j != ii implies #[trigger] post[j]
                        == pre[j] by {
                        if j < ii {
                            assert(pre.remove(ii)[j] == pre[j]);
                        } else {
                            assert(pre.remove(ii)[j - 1] == pre[j]);
                        }
                    }
                    assert(post[ii] == e2);
                    assert(m == pre[ii].1@[0]);
                    lemma_table_replace(pre, post, ii, pre[ii].1@.drop_first());
                    assert(old(self)@.dom().contains(recipient));
                    assert(old(self)@[recipient] == pre[ii].1@);
                }
                return Some(m);
            }
            i += 1;
        }
        proof {
            assert(!has_key(pre, recipient));
            assert(!old(self)@.dom().contains(recipient));
        }
        None
    }
}

/// Law: mailbox FIFO. Sending messages `a`, `b`, `c` to the same
/// recipient, whose mailbox starts empty or unknown, and then receiving
/// three times yields `a`, `b`, `c` in that order; a fourth receive, like
/// any receive from an empty or unknown mailbox, yields nothing.
pub proof fn lemma_mailbox_fifo(
    m: Map<u32, Seq<Message>>,
    recipient: u32,
    a: Message,
    b: Message,
    c: Message,
)
    requires
        !m.dom().contains(recipient) || m[recipient].len() == 0,
    ensures
        received(m, recipient).0 is None,
        ({
            let m3 = sent(sent(sent(m, recipient, a), recipient, b), recipient, c);
            let (r1, m4) = received(m3, recipient);
            let (r2, m5) = received(m4, recipient);
            let (r3, m6) = received(m5, recipient);
            let (r4, _) = received(m6, recipient);
            &&& r1 == Some(a)
            &&& r2 == Some(b)
            &&& r3 == Some(c)
            &&& r4 is None
        }),
{
    let m3 = sent(sent(sent(m, recipient, a), recipient, b), recipient, c);
    let q0 = Seq::<Message>::empty();
    assert(sent(m, recipient, a)[recipient] =~= q0.push(a));
    assert(sent(sent(m, recipient, a), recipient, b)[recipient] =~= q0.push(a).push(b));
    assert(m3[recipient] =~= q0.push(a).push(b).push(c));
    let (r1, m4) = received(m3, recipient);
    assert(r1 == Some(a));
    assert(m4[recipient] =~= q0.push(b).push(c));
    let (r2, m5) = received(m4, recipient);
    assert(r2 == Some(b));
    assert(m5[recipient] =~= q0.push(c));
    let (r3, m6) = received(m5, recipient);
    assert(r3 == Some(c));
    assert(m6[recipient] =~= q0);
    let (r4, _) = received(m6, recipient);
    assert(r4 is None);
}

} // verus!
