//! The wallets of one node, each under its address.

use crate::wallet::Wallet;
use vstd::prelude::*;

verus! {

/// The wallets of one node. Each entry pairs an address with its wallet.
#[derive(Debug, PartialEq, Eq)]
pub struct Wallets {
    pub wallets: Vec<(String, Wallet)>,
}

/// The first wallet kept under `address`.
pub open spec fn wallet_under(entries: Seq<(String, Wallet)>, address: Seq<char>) -> Option<Wallet>
    decreases entries.len(),
{
    if entries.len() == 0 {
        None
    } else if entries[0].0@ == address {
        Some(entries[0].1)
    } else {
        wallet_under(entries.drop_first(), address)
    }
}

/// The position of the first entry under `address`, or the number of
/// entries when there is none.
pub open spec fn position_under(entries: Seq<(String, Wallet)>, address: Seq<char>) -> int
    decreases entries.len(),
{
    if entries.len() == 0 {
        0
    } else if entries[0].0@ == address {
        0
    } else {
        1 + position_under(entries.drop_first(), address)
    }
}

/// Whether no two entries stand under the same address.
pub open spec fn addresses_distinct(entries: Seq<(String, Wallet)>) -> bool {
    forall|i: int, j: int| 0 <= i < j < entries.len() ==> (#[trigger] entries[i]).0@ != (#[trigger] entries[j]).0@
}

/// An entry that comes last is found under its address only when no earlier
/// entry has it, and hides no other entry.
pub proof fn lemma_wallet_under_push(entries: Seq<(String, Wallet)>, entry: (String, Wallet), address: Seq<char>)
    ensures
        wallet_under(entries.push(entry), address) == match wallet_under(entries, address) {
            Some(found) => Some(found),
            None => if entry.0@ == address {
                Some(entry.1)
            } else {
                None
            },
        },
    decreases entries.len(),
{
    if entries.len() == 0 {
        assert(entries.push(entry).drop_first() =~= entries);
    } else {
        assert(entries.push(entry).drop_first() =~= entries.drop_first().push(entry));
        if entries[0].0@ != address {
            lemma_wallet_under_push(entries.drop_first(), entry, address);
        }
    }
}

/// An entry put in the place of the first entry under its address is what
/// is found under that address, and changes nothing under any other.
pub proof fn lemma_wallet_under_update(
    entries: Seq<(String, Wallet)>,
    at: int,
    entry: (String, Wallet),
    address: Seq<char>,
)
    requires
        0 <= at < entries.len(),
        entries[at].0@ == entry.0@,
        forall|k: int| 0 <= k < at ==> (#[trigger] entries[k]).0@ != entry.0@,
    ensures
        wallet_under(entries.update(at, entry), address) == if address == entry.0@ {
            Some(entry.1)
        } else {
            wallet_under(entries, address)
        },
    decreases entries.len(),
{
    let changed = entries.update(at, entry);
    if at == 0 {
        assert(changed.drop_first() =~= entries.drop_first());
    } else {
        assert(entries[0].0@ != entry.0@);
        assert(changed.drop_first() =~= entries.drop_first().update(at - 1, entry));
        assert forall|k: int| 0 <= k < at - 1 implies (#[trigger] entries.drop_first()[k]).0@ != entry.0@ by {
            assert(entries.drop_first()[k] == entries[k + 1]);
        }
        lemma_wallet_under_update(entries.drop_first(), at - 1, entry, address);
    }
}

impl Wallets {
    /// The wallets are well formed when no two stand under one address.
    pub open spec fn wf(&self) -> bool {
        addresses_distinct(self.wallets@)
    }

    /// No wallet yet.
    pub fn new() -> (wallets: Self)
        ensures
            wallets.wallets@.len() == 0,
            wallets.wf(),
    {
        Wallets { wallets: Vec::new() }
    }

    /// The position of the first entry under `address`.
    fn position(&self, address: &String) -> (at: Option<usize>)
        ensures
            match at {
                Some(i) => {
                    &&& i < self.wallets@.len()
                    &&& self.wallets@[i as int].0@ == address@
                    &&& forall|k: int| 0 <= k < i ==> (#[trigger] self.wallets@[k]).0@ != address@
                },
                None => forall|k: int| 0 <= k < self.wallets@.len() ==> (#[trigger] self.wallets@[k]).0@ != address@,
            },
    {
        let mut i: usize = 0;
        while i < self.wallets.len()
            invariant
                i <= self.wallets@.len(),
                forall|k: int| 0 <= k < i ==> (#[trigger] self.wallets@[k]).0@ != address@,
            decreases self.wallets@.len() - i,
        {
            if self.wallets[i].0 == *address {
                return Some(i);
            }
            i = i + 1;
        }
        None
    }

    /// Makes a new wallet, keeps it under its address and returns that
    /// address. A wallet that stood under the same address gives way; every
    /// other wallet stays where it is.
    pub fn add_wallet(&mut self) -> (address: String)
        ensures
            wallet_under(final(self).wallets@, address@) matches Some(wallet) && wallet.wf() && address@
                == wallet.address_text(),
            forall|other: Seq<char>|
                other != address@ ==> #[trigger] wallet_under(final(self).wallets@, other) == wallet_under(
                    old(self).wallets@,
                    other,
                ),
            old(self).wf() ==> final(self).wf(),
    {
        let wallet = Wallet::new();
        let address = wallet.address();
        let ghost before = self.wallets@;
        let entry = (address.clone(), wallet);
        let ghost added = entry;
        match self.position(&address) {
            Some(i) => {
                self.wallets.set(i, entry);
                proof {
                    assert(self.wallets@ =~= before.update(i as int, added));
                    assert forall|other: Seq<char>| true implies #[trigger] wallet_under(self.wallets@, other) == (
                    if other == address@ {
                        Some(added.1)
                    } else {
                        wallet_under(before, other)
                    }) by {
                        lemma_wallet_under_update(before, i as int, added, other);
                    }
                    assert(wallet_under(self.wallets@, address@) == Some(added.1));
                }
            },
            None => {
                self.wallets.push(entry);
                proof {
                    assert(self.wallets@ =~= before.push(added));
                    lemma_wallet_absent(before, address@);
                    assert forall|other: Seq<char>| true implies #[trigger] wallet_under(self.wallets@, other) == (
                    match wallet_under(before, other) {
                        Some(found) => Some(found),
                        None => if other == address@ {
                            Some(added.1)
                        } else {
                            None
                        },
                    }) by {
                        lemma_wallet_under_push(before, added, other);
                    }
                    assert(wallet_under(self.wallets@, address@) == Some(added.1));
                }
            },
        }
        address
    }

    /// The addresses of all wallets, in the order they were added in.
    pub fn get_all_addresses(&self) -> (addresses: Vec<&str>)
        ensures
            addresses@.len() == self.wallets@.len(),
            forall|i: int| 0 <= i < addresses@.len() ==> (#[trigger] addresses@[i])@ == self.wallets@[i].0@,
    {
        let mut addresses: Vec<&str> = Vec::new();
        let mut i: usize = 0;
        while i < self.wallets.len()
            invariant
                i <= self.wallets@.len(),
                addresses@.len() == i,
                forall|k: int| 0 <= k < i ==> (#[trigger] addresses@[k])@ == self.wallets@[k].0@,
            decreases self.wallets@.len() - i,
        {
            addresses.push(self.wallets[i].0.as_str());
            i = i + 1;
        }
        addresses
    }

    /// The first wallet kept under `address`.
    pub fn get_wallet(&self, address: &str) -> (wallet: Option<&Wallet>)
        ensures
            match wallet {
                Some(w) => wallet_under(self.wallets@, address@) == Some(*w),
                None => wallet_under(self.wallets@, address@).is_none(),
            },
    {
        let ghost all = self.wallets@;
        let mut i: usize = 0;
        assert(all.skip(0) =~= all);
        while i < self.wallets.len()
            invariant
                i <= self.wallets@.len(),
                all == self.wallets@,
                wallet_under(all, address@) == wallet_under(all.skip(i as int), address@),
            decreases self.wallets@.len() - i,
        {
            assert(all.skip(i as int)[0] == all[i as int]);
            assert(all.skip(i as int).drop_first() =~= all.skip(i + 1));
            if text_is(&self.wallets[i].0, address) {
                return Some(&self.wallets[i].1);
            }
            i = i + 1;
        }
        None
    }
}

impl Wallets {
    /// The first wallet kept under `address`, to be changed in place.
    pub fn get_wallet_mut(&mut self, address: &str) -> (wallet: Option<&mut Wallet>)
        ensures
            match wallet {
                Some(w) => {
                    let at = position_under(old(self).wallets@, address@);
                    &&& wallet_under(old(self).wallets@, address@) == Some(*w)
                    &&& 0 <= at < old(self).wallets@.len()
                    &&& final(self).wallets@ == old(self).wallets@.update(
                        at,
                        (old(self).wallets@[at].0, *final(w)),
                    )
                },
                None => wallet_under(old(self).wallets@, address@).is_none() && *final(self) == *old(self),
            },
    {
        let ghost all = self.wallets@;
        let mut i: usize = 0;
        assert(all.skip(0) =~= all);
        while i < self.wallets.len()
            invariant
                i <= self.wallets@.len(),
                all == self.wallets@,
                *self == *old(self),
                wallet_under(all, address@) == wallet_under(all.skip(i as int), address@),
                position_under(all, address@) == i + position_under(all.skip(i as int), address@),
            decreases self.wallets@.len() - i,
        {
            assert(all.skip(i as int)[0] == all[i as int]);
            assert(all.skip(i as int).drop_first() =~= all.skip(i + 1));
            if text_is(&self.wallets[i].0, address) {
                return Some(&mut self.wallets[i].1);
            }
            i = i + 1;
        }
        None
    }
}

/// No wallet is found under an address that no entry has.
pub proof fn lemma_wallet_absent(entries: Seq<(String, Wallet)>, address: Seq<char>)
    requires
        forall|k: int| 0 <= k < entries.len() ==> (#[trigger] entries[k]).0@ != address,
    ensures
        wallet_under(entries, address).is_none(),
    decreases entries.len(),
{
    if entries.len() > 0 {
        assert(entries[0].0@ != address);
        assert forall|k: int| 0 <= k < entries.drop_first().len() implies (#[trigger] entries.drop_first()[k]).0@
            != address by {
            assert(entries.drop_first()[k] == entries[k + 1]);
        }
        lemma_wallet_absent(entries.drop_first(), address);
    }
}

/// Whether a kept text and a given one read the same.
fn text_is(kept: &String, given: &str) -> (same: bool)
    ensures
        same == (kept@ == given@),
{
    let owned = given.to_owned();
    *kept == owned
}

} // verus!
