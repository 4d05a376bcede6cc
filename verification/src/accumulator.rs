//! Fragment Accumulator.
//!
//! Buffers consecutive fragments of the in-flight message of each
//! logical channel until a terminal fragment arrives, then yields the
//! concatenated bytes and clears only that channel's buffer. The two
//! channels accumulate independently, so command and data messages
//! may interleave freely.

use vstd::prelude::*;
use crate::codec::{clone_bytes, push_all};
use crate::pdu::{Channel, ItemView, PduItem};

verus! {

/// Per-session accumulation state: one buffer per channel.
pub struct Accumulator {
    pub command: Vec<u8>,
    pub data: Vec<u8>,
}

/// The mathematical content of an [`Accumulator`].
#[verifier::ext_equal]
pub struct AccView {
    pub command: Seq<u8>,
    pub data: Seq<u8>,
}

impl View for Accumulator {
    type V = AccView;

    open spec fn view(&self) -> AccView {
        AccView { command: self.command@, data: self.data@ }
    }
}

/// What feeding one item does: the item's payload is appended to its
/// channel's buffer; a terminal item yields that buffer's contents
/// and clears it; the other channel's buffer is never touched.
pub open spec fn feed_spec(s: AccView, item: ItemView) -> (AccView, Option<Seq<u8>>) {
    match item.channel {
        Channel::Command => if item.is_terminal {
            (AccView { command: Seq::empty(), data: s.data }, Some(s.command + item.payload))
        } else {
            (AccView { command: s.command + item.payload, data: s.data }, None)
        },
        Channel::Data => if item.is_terminal {
            (AccView { command: s.command, data: Seq::empty() }, Some(s.data + item.payload))
        } else {
            (AccView { command: s.command, data: s.data + item.payload }, None)
        },
    }
}

/// The view of an optional completed message.
pub open spec fn opt_bytes_view(o: Option<Vec<u8>>) -> Option<Seq<u8>> {
    match o {
        None => None,
        Some(v) => Some(v@),
    }
}

impl Accumulator {
    /// A fresh accumulator with both buffers empty.
    pub fn new() -> (r: Accumulator)
        ensures
            r@.command.len() == 0,
            r@.data.len() == 0,
    {
        Accumulator { command: Vec::new(), data: Vec::new() }
    }

    /// Feeds one item, returning the complete message if the item is
    /// terminal. An empty payload is accepted on any item; a terminal
    /// item with an empty payload completes whatever was buffered.
    pub fn feed(&mut self, item: &PduItem) -> (r: Option<Vec<u8>>)
        ensures
            final(self)@ == feed_spec(old(self)@, item@).0,
            opt_bytes_view(r) == feed_spec(old(self)@, item@).1,
    {
        match item.channel {
            Channel::Command => {
                push_all(&mut self.command, &item.payload);
                if item.is_terminal {
                    let out = clone_bytes(&self.command);
                    self.command.clear();
                    Some(out)
                } else {
                    None
                }
            },
            Channel::Data => {
                push_all(&mut self.data, &item.payload);
                if item.is_terminal {
                    let out = clone_bytes(&self.data);
                    self.data.clear();
                    Some(out)
                } else {
                    None
                }
            },
        }
    }

    /// Clears the data-channel buffer, as the session loop does when
    /// a command message completes: a new object transfer is about to
    /// begin and must not inherit stale bytes.
    pub fn clear_data(&mut self)
        ensures
            final(self)@.data.len() == 0,
            final(self)@.command == old(self)@.command,
    {
        self.data.clear();
    }
}

/// Folds a run of items through the accumulator, collecting each
/// feed's yield in order.
pub open spec fn run_feeds(s: AccView, items: Seq<ItemView>) -> (AccView, Seq<Option<Seq<u8>>>)
    decreases items.len(),
{
    if items.len() == 0 {
        (s, Seq::empty())
    } else {
        let (s1, o) = feed_spec(s, items[0]);
        let (s2, os) = run_feeds(s1, items.drop_first());
        (s2, seq![o] + os)
    }
}

/// The concatenation of a run of fragments, in order.
pub open spec fn concat_frags(fs: Seq<Seq<u8>>) -> Seq<u8>
    decreases fs.len(),
{
    if fs.len() == 0 {
        Seq::empty()
    } else {
        fs[0] + concat_frags(fs.drop_first())
    }
}

/// The items of one message: fragments of `frags` on channel `chan`,
/// terminal only on the last.
pub open spec fn message_items(frags: Seq<Seq<u8>>, chan: Channel, ctx: u8) -> Seq<ItemView> {
    Seq::new(
        frags.len(),
        |k: int|
            ItemView {
                context_id: ctx,
                channel: chan,
                is_terminal: k == frags.len() - 1,
                payload: frags[k],
            },
    )
}

/// Reassembly correctness: feeding any ordered split of a byte
/// sequence as fragments, terminal only on the last, yields the
/// concatenation of all fragments appended to whatever the channel
/// already held — exactly once, at the last feed — and leaves that
/// channel's buffer empty and the other channel untouched.
pub proof fn lemma_reassembly(frags: Seq<Seq<u8>>, chan: Channel, ctx: u8, s0: AccView)
    requires
        frags.len() >= 1,
    ensures
        ({
            let (s1, outs) = run_feeds(s0, message_items(frags, chan, ctx));
            &&& outs.len() == frags.len()
            &&& forall|k: int| 0 <= k < outs.len() - 1 ==> outs[k] is None
            &&& outs.last() == Some(
                (if chan is Command {
                    s0.command
                } else {
                    s0.data
                }) + concat_frags(frags),
            )
            &&& (chan is Command ==> s1.command.len() == 0 && s1.data == s0.data)
            &&& (chan is Data ==> s1.data.len() == 0 && s1.command == s0.command)
        }),
    decreases frags.len(),
{
    let items = message_items(frags, chan, ctx);
    if frags.len() == 1 {
        assert(items[0].is_terminal);
        assert(items.drop_first() =~= Seq::<ItemView>::empty());
        assert(concat_frags(frags.drop_first()) =~= Seq::<u8>::empty());
        assert(frags[0] + Seq::<u8>::empty() =~= frags[0]);
        assert(concat_frags(frags) == frags[0]);
        let (s1, o) = feed_spec(s0, items[0]);
        assert(run_feeds(s1, items.drop_first()) == (s1, Seq::<Option<Seq<u8>>>::empty()));
        assert(run_feeds(s0, items).0 == s1);
        assert(run_feeds(s0, items).1 =~= seq![o]);
        assert(o == Some(
            (if chan is Command {
                s0.command
            } else {
                s0.data
            }) + frags[0],
        ));
    } else {
        assert(!items[0].is_terminal);
        let (s1, o) = feed_spec(s0, items[0]);
        assert(o is None);
        let frags2 = frags.drop_first();
        lemma_reassembly(frags2, chan, ctx, s1);
        assert(items.drop_first() =~= message_items(frags2, chan, ctx));
        let (s2, outs2) = run_feeds(s1, items.drop_first());
        assert(run_feeds(s0, items).0 == s2);
        assert(run_feeds(s0, items).1 =~= seq![o] + outs2);
        let outs = run_feeds(s0, items).1;
        assert(forall|k: int| 0 <= k < outs.len() - 1 ==> outs[k] is None) by {
            assert(forall|k: int| 1 <= k < outs.len() ==> outs[k] == outs2[k - 1]);
        }
        assert(outs.last() == outs2.last());
        if chan is Command {
            assert(s1.command == s0.command + frags[0]);
            assert((s0.command + frags[0]) + concat_frags(frags2) =~= s0.command + (frags[0]
                + concat_frags(frags2)));
            assert(s0.command + concat_frags(frags) =~= s0.command + (frags[0] + concat_frags(
                frags2,
            )));
        } else {
            assert(s1.data == s0.data + frags[0]);
            assert((s0.data + frags[0]) + concat_frags(frags2) =~= s0.data + (frags[0]
                + concat_frags(frags2)));
            assert(s0.data + concat_frags(frags) =~= s0.data + (frags[0] + concat_frags(frags2)));
        }
    }
}

/// The bytes a run of items contributes to channel `chan`: the
/// concatenation, in arrival order, of the payloads of the items on
/// that channel.
pub open spec fn channel_bytes(items: Seq<ItemView>, chan: Channel) -> Seq<u8>
    decreases items.len(),
{
    if items.len() == 0 {
        Seq::empty()
    } else {
        (if items[0].channel == chan {
            items[0].payload
        } else {
            Seq::empty()
        }) + channel_bytes(items.drop_first(), chan)
    }
}

/// Feeding any run of non-terminal items yields nothing and leaves
/// each channel's buffer holding exactly what it held before plus
/// that channel's payloads, in order — channels never contaminate
/// each other.
pub proof fn lemma_interleaved_feeds(items: Seq<ItemView>, s0: AccView)
    requires
        forall|k: int| 0 <= k < items.len() ==> !(#[trigger] items[k]).is_terminal,
    ensures
        ({
            let (s1, outs) = run_feeds(s0, items);
            &&& forall|k: int| 0 <= k < outs.len() ==> outs[k] is None
            &&& s1.command == s0.command + channel_bytes(items, Channel::Command)
            &&& s1.data == s0.data + channel_bytes(items, Channel::Data)
        }),
    decreases items.len(),
{
    if items.len() == 0 {
        assert(s0.command + channel_bytes(items, Channel::Command) =~= s0.command);
        assert(s0.data + channel_bytes(items, Channel::Data) =~= s0.data);
    } else {
        assert(items[0] == items.first());
        let (s1, o) = feed_spec(s0, items[0]);
        let rest = items.drop_first();
        assert(forall|k: int| 0 <= k < rest.len() ==> !(#[trigger] rest[k]).is_terminal) by {
            assert(forall|k: int| 0 <= k < rest.len() ==> rest[k] == items[k + 1]);
        }
        lemma_interleaved_feeds(rest, s1);
        let (s2, outs2) = run_feeds(s1, rest);
        assert(run_feeds(s0, items).1 =~= seq![o] + outs2);
        let cb = channel_bytes(rest, Channel::Command);
        let db = channel_bytes(rest, Channel::Data);
        if items[0].channel is Command {
            assert(s1.command == s0.command + items[0].payload);
            assert((s0.command + items[0].payload) + cb =~= s0.command + (items[0].payload + cb));
            assert(s0.command + channel_bytes(items, Channel::Command) =~= s0.command + (items[0].payload + cb));
            assert(channel_bytes(items, Channel::Data) =~= db);
            assert(s0.data + channel_bytes(items, Channel::Data) =~= s0.data + db);
        } else {
            assert(s1.data == s0.data + items[0].payload);
            assert((s0.data + items[0].payload) + db =~= s0.data + (items[0].payload + db));
            assert(s0.data + channel_bytes(items, Channel::Data) =~= s0.data + (items[0].payload + db));
            assert(channel_bytes(items, Channel::Command) =~= cb);
            assert(s0.command + channel_bytes(items, Channel::Command) =~= s0.command + cb);
        }
    }
}

/// Channel independence: after interleaving non-terminal command and
/// data fragments in any order over empty buffers, terminating each
/// channel independently completes each message with exactly that
/// channel's bytes.
pub proof fn lemma_channel_independence(
    items: Seq<ItemView>,
    s0: AccView,
    tc: ItemView,
    td: ItemView,
)
    requires
        forall|k: int| 0 <= k < items.len() ==> !(#[trigger] items[k]).is_terminal,
        s0.command.len() == 0,
        s0.data.len() == 0,
        tc.channel is Command,
        tc.is_terminal,
        td.channel is Data,
        td.is_terminal,
    ensures
        ({
            let (s1, outs) = run_feeds(s0, items);
            let (s2, oc) = feed_spec(s1, tc);
            let (s3, od) = feed_spec(s2, td);
            &&& oc == Some(channel_bytes(items, Channel::Command) + tc.payload)
            &&& od == Some(channel_bytes(items, Channel::Data) + td.payload)
        }),
{
    lemma_interleaved_feeds(items, s0);
    let (s1, outs) = run_feeds(s0, items);
    assert(s1.command =~= channel_bytes(items, Channel::Command));
    assert(s1.data =~= channel_bytes(items, Channel::Data));
}

} // verus!
