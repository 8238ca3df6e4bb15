use vstd::prelude::*;
use std::sync::mpsc::{Receiver, Sender};

verus! {

#[verifier::external_type_specification]
#[verifier::external_body]
#[verifier::reject_recursive_types(T)]
pub struct ExSender<T>(Sender<T>);

#[verifier::external_type_specification]
#[verifier::external_body]
#[verifier::reject_recursive_types(T)]
pub struct ExReceiver<T>(Receiver<T>);

/// Calls `std::sync::mpsc::channel`: a new channel, given as the address to
/// send to and the inbox to receive from. That the two are ends of one
/// fresh channel is not stated: it relates two opaque values, which would
/// take a name over the generic channel types or ghost state shared by the
/// two ends, and this library has neither.
#[verifier::external_body]
fn open_channel<T>() -> (Sender<T>, Receiver<T>) {
    std::sync::mpsc::channel()
}

/// Calls `Receiver::try_recv`: the next value waiting in the inbox, or
/// `None` when none is waiting or every address is gone. Which of these
/// comes back depends on other threads, so nothing is stated.
#[verifier::external_body]
fn try_receive<T>(inbox: &Receiver<T>) -> Option<T> {
    inbox.try_recv().ok()
}

/// An address to send to, with a ghost record of the values handed to its
/// channel through this outbox, oldest first.
#[verifier::reject_recursive_types(T)]
pub struct Outbox<'a, T> {
    pub address: &'a Sender<T>,
    pub handed: Ghost<Seq<T>>,
}

/// Calls `Sender::send` on the outbox's address: whether `value` was handed
/// to the channel, which is so unless its inbox is gone. Which of these
/// comes back depends on other threads, so it is not stated; a value handed
/// over is added to the outbox's record, and the address stays.
#[verifier::external_body]
fn send_to<T>(outbox: &mut Outbox<T>, value: T) -> (ok: bool)
    ensures
        final(outbox).address == old(outbox).address,
        final(outbox).handed@ == if ok {
            old(outbox).handed@.push(value)
        } else {
            old(outbox).handed@
        },
{
    outbox.address.send(value).is_ok()
}

/// A request to receive what a publisher publishes, at the address inside.
#[verifier::reject_recursive_types(T)]
pub struct PleaseSubscribeMe<T>(Sender<T>);

/// Where subscription requests are sent.
pub type Publication<T> = Sender<PleaseSubscribeMe<T>>;

/// Where published values arrive.
pub type Subscription<T> = Receiver<T>;

/// Sends each published value to every subscriber.
#[verifier::reject_recursive_types(T)]
pub struct Publisher<T> {
    subscription_requests: Receiver<PleaseSubscribeMe<T>>,
    subscriptors: Vec<Sender<T>>,
    handed: Ghost<Seq<Seq<T>>>,
}

impl<T> Publisher<T> {
    /// The addresses of the current subscribers, oldest first.
    pub closed spec fn subscribers(&self) -> Seq<Sender<T>> {
        self.subscriptors@
    }

    /// For each subscriber, the values handed to its channel since it
    /// subscribed, oldest first.
    pub closed spec fn handed(&self) -> Seq<Seq<T>> {
        Seq::new(
            self.subscriptors@.len(),
            |i: int|
                if i < self.handed@.len() {
                    self.handed@[i]
                } else {
                    Seq::empty()
                },
        )
    }
}

/// Keeping items of `s` keeps as many as there are set flags.
proof fn lemma_kept_items_len<A>(s: Seq<A>, kept: Seq<bool>)
    ensures
        kept.len() == s.len() ==> kept_items(s, kept).len() == kept_count(kept),
    decreases s.len(),
{
    if s.len() > 0 && kept.len() == s.len() {
        lemma_kept_items_len(s.drop_last(), kept.drop_last());
    }
}

/// The number of set flags.
pub open spec fn kept_count(kept: Seq<bool>) -> nat
    decreases kept.len(),
{
    if kept.len() == 0 {
        0
    } else {
        kept_count(kept.drop_last()) + if kept.last() {
            1nat
        } else {
            0nat
        }
    }
}

/// The items of `s` and `t` agree wherever `kept` is set: they keep the same.
proof fn lemma_kept_items_agree<A>(s: Seq<A>, t: Seq<A>, kept: Seq<bool>)
    requires
        s.len() == t.len(),
        kept.len() == s.len(),
        forall|i: int| 0 <= i < s.len() && kept[i] ==> s[i] == t[i],
    ensures
        kept_items(s, kept) == kept_items(t, kept),
    decreases s.len(),
{
    if s.len() > 0 {
        lemma_kept_items_agree(s.drop_last(), t.drop_last(), kept.drop_last());
    }
}

/// What publishing `thing` did: the subscribers were the old ones followed
/// by those that `arrived`; each was handed one copy of `thing`, the `i`-th
/// `copies[i]`, and those for which `delivered` is set were kept, in order,
/// with the copy added to their record.
pub open spec fn published<T: Clone>(
    old_subscribers: Seq<Sender<T>>,
    old_handed: Seq<Seq<T>>,
    new_subscribers: Seq<Sender<T>>,
    new_handed: Seq<Seq<T>>,
    thing: T,
    arrived: Seq<Sender<T>>,
    delivered: Seq<bool>,
    copies: Seq<T>,
) -> bool {
    let n = old_subscribers.len() + arrived.len();
    let before = old_handed + Seq::new(arrived.len(), |i: int| Seq::<T>::empty());
    &&& delivered.len() == n
    &&& copies.len() == n
    &&& forall|i: int| 0 <= i < n ==> cloned(thing, #[trigger] copies[i])
    &&& new_subscribers == kept_items(old_subscribers + arrived, delivered)
    &&& new_handed == kept_items(Seq::new(n, |i: int| before[i].push(copies[i])), delivered)
}

/// The items of `s` whose flag in `kept` is set, in order.
pub open spec fn kept_items<A>(s: Seq<A>, kept: Seq<bool>) -> Seq<A>
    decreases s.len(),
{
    if s.len() == 0 || kept.len() != s.len() {
        Seq::empty()
    } else {
        let rest = kept_items(s.drop_last(), kept.drop_last());
        if kept.last() {
            rest.push(s.last())
        } else {
            rest
        }
    }
}

/// A publication and its publisher, with no subscriber yet. They are the
/// two ends of one new channel, which is not stated (see `open_channel`).
pub fn medium<T>() -> (r: (Publication<T>, Publisher<T>))
    ensures
        r.1.subscribers() == Seq::<Sender<T>>::empty(),
{
    let (publication_address, inbox) = open_channel();
    let publisher = Publisher { subscription_requests: inbox, subscriptors: Vec::new(), handed: Ghost(Seq::empty()) };
    (publication_address, publisher)
}

/// The subscribers whose flag in `delivered` is set, in their order: those
/// to which the last value could be sent.
pub fn retain_delivered<T>(subscribers: Vec<Sender<T>>, delivered: Vec<bool>) -> (kept: Vec<Sender<T>>)
    requires
        delivered@.len() == subscribers@.len(),
    ensures
        kept@ == kept_items(subscribers@, delivered@),
{
    let ghost all = subscribers@;
    let mut rest = subscribers;
    let mut kept: Vec<Sender<T>> = Vec::new();
    let mut i: usize = 0;
    let n = rest.len();
    assert(all.take(0) =~= Seq::<Sender<T>>::empty());
    assert(delivered@.take(0) =~= Seq::<bool>::empty());
    while rest.len() > 0
        invariant
            i + rest@.len() == n,
            n == all.len(),
            delivered@.len() == n,
            rest@ == all.skip(i as int),
            kept@ == kept_items(all.take(i as int), delivered@.take(i as int)),
        decreases rest@.len(),
    {
        let ghost before = rest@;
        let subscriber = rest.remove(0);
        assert(subscriber == all[i as int]) by {
            assert(before[0] == all.skip(i as int)[0]);
        }
        assert(rest@ =~= all.skip(i + 1)) by {
            assert forall|k: int| 0 <= k < rest@.len() implies rest@[k] == all.skip(i + 1)[k] by {
                assert(rest@[k] == before[k + 1]);
                assert(before[k + 1] == all.skip(i as int)[k + 1]);
            }
        }
        proof {
            let next = all.take(i + 1);
            assert(next.drop_last() =~= all.take(i as int));
            assert(next.last() == all[i as int]);
            assert(delivered@.take(i + 1).drop_last() =~= delivered@.take(i as int));
            assert(delivered@.take(i + 1).last() == delivered@[i as int]);
        }
        if delivered[i] {
            kept.push(subscriber);
        }
        i = i + 1;
    }
    assert(all.take(i as int) =~= all);
    assert(delivered@.take(i as int) =~= delivered@);
    kept
}

impl<T: Clone + Send> Publisher<T> {
    /// Takes in the subscription requests that have arrived, then hands a
    /// copy of `thing` to every subscriber, old and new, each once, and keeps
    /// those to which it could be handed, in their order.
    pub fn publish(&mut self, thing: &T)
        ensures
            exists|arrived: Seq<Sender<T>>, delivered: Seq<bool>, copies: Seq<T>|
                #[trigger] published(
                    old(self).subscribers(),
                    old(self).handed(),
                    final(self).subscribers(),
                    final(self).handed(),
                    *thing,
                    arrived,
                    delivered,
                    copies,
                ),
    {
        let ghost start = self.subscriptors@;
        let ghost start_handed = self.handed();
        // A vector cannot hold more than `usize::MAX` items: taking in stops there.
        loop
            invariant
                start.len() <= self.subscriptors@.len(),
                self.subscriptors@.subrange(0, start.len() as int) == start,
            decreases usize::MAX - self.subscriptors@.len(),
        {
            if self.subscriptors.len() == usize::MAX {
                break;
            }
            match try_receive(&self.subscription_requests) {
                Some(PleaseSubscribeMe(address)) => {
                    self.subscriptors.push(address);
                },
                None => break,
            }
        }
        let ghost all = self.subscriptors@;
        let ghost arrived = all.skip(start.len() as int);
        let ghost before = start_handed + Seq::new(arrived.len(), |i: int| Seq::<T>::empty());
        let ghost mut logs: Seq<Seq<T>> = Seq::empty();
        let ghost mut copies: Seq<T> = Seq::empty();
        let mut delivered: Vec<bool> = Vec::new();
        let mut i: usize = 0;
        while i < self.subscriptors.len()
            invariant
                i <= all.len(),
                self.subscriptors@ == all,
                before.len() == all.len(),
                delivered@.len() == i,
                logs.len() == i,
                copies.len() == i,
                forall|k: int| 0 <= k < i ==> cloned(*thing, #[trigger] copies[k]),
                forall|k: int|
                    0 <= k < i ==> #[trigger] logs[k] == if delivered@[k] {
                        before[k].push(copies[k])
                    } else {
                        before[k]
                    },
            decreases all.len() - i,
        {
            let copy = thing.clone();
            let ghost c = copy;
            let mut outbox = Outbox { address: &self.subscriptors[i], handed: Ghost(before[i as int]) };
            let ok = send_to(&mut outbox, copy);
            proof {
                logs = logs.push(outbox.handed@);
                copies = copies.push(c);
            }
            delivered.push(ok);
            i = i + 1;
        }
        let ghost flags = delivered@;
        let mut subs: Vec<Sender<T>> = Vec::new();
        std::mem::swap(&mut subs, &mut self.subscriptors);
        let kept = retain_delivered(subs, delivered);
        self.subscriptors = kept;
        self.handed = Ghost(kept_items(logs, flags));
        proof {
            assert(all =~= start + arrived);
            let n = all.len();
            let pushed = Seq::new(n, |k: int| before[k].push(copies[k]));
            lemma_kept_items_agree(logs, pushed, flags);
            lemma_kept_items_len(all, flags);
            lemma_kept_items_len(logs, flags);
            assert(self.handed() =~= kept_items(logs, flags));
            assert(published(
                old(self).subscribers(),
                old(self).handed(),
                self.subscribers(),
                self.handed(),
                *thing,
                arrived,
                flags,
                copies,
            ));
        }
    }
}

/// What hands out subscriptions.
pub trait PublicationTrait<T> {
    /// Asks for a new subscription, and gives the inbox where published
    /// values will arrive. The request, carrying the address of a new
    /// channel, is sent once and whether it arrives is not checked; that the
    /// inbox is that channel's other end is not stated (see `open_channel`).
    fn subscribe(&self) -> Subscription<T>;
}

impl<T> PublicationTrait<T> for Publication<T> {
    fn subscribe(&self) -> Subscription<T> {
        let (address, inbox) = open_channel();
        let mut outbox = Outbox { address: self, handed: Ghost(Seq::empty()) };
        let _ = send_to(&mut outbox, PleaseSubscribeMe(address));
        inbox
    }
}

/// Publishes what arrives at an inbox.
#[verifier::reject_recursive_types(T)]
pub struct Republisher<T> {
    to_publish: Receiver<T>,
    publisher: Publisher<T>,
}

impl<T> Republisher<T> {
    /// Does nothing yet.
    pub fn pump(&mut self)
        ensures
            *final(self) == *old(self),
    {
    }

    pub closed spec fn subscribers(&self) -> Seq<Sender<T>> {
        self.publisher.subscribers()
    }
}

/// A publication, an address to send values to be published, and the
/// republisher that publishes them; no subscriber yet. Which channel ends
/// they hold is not stated (see `open_channel`).
pub fn open_medium<T>() -> (r: (Publication<T>, Sender<T>, Republisher<T>))
    ensures
        r.2.subscribers() == Seq::<Sender<T>>::empty(),
{
    let (publication, publisher) = medium();
    let (address, inbox) = open_channel();
    (publication, address, Republisher { to_publish: inbox, publisher })
}

} // verus!
