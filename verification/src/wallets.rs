//! A collection of wallets, each under its address.

use crate::error::ChainError;
use crate::wallet::{address_of, address_valid, Wallet};
use std::mem::swap;
use vstd::prelude::*;

verus! {

/// The wallet that a list of entries holds under `address`: that of the first
/// entry with the address.
pub open spec fn find_wallet(entries: Seq<(String, Wallet)>, address: Seq<char>) -> Option<Wallet>
    decreases entries.len(),
{
    if entries.len() == 0 {
        None
    } else if entries[0].0@ == address {
        Some(entries[0].1)
    } else {
        find_wallet(entries.drop_first(), address)
    }
}

proof fn lemma_find_wallet_update(
    entries: Seq<(String, Wallet)>,
    at: int,
    entry: (String, Wallet),
    address: Seq<char>,
)
    requires
        0 <= at < entries.len(),
        entries[at].0@ == entry.0@,
        forall|j: int| 0 <= j < at ==> entries[j].0@ != entry.0@,
    ensures
        find_wallet(entries.update(at, entry), address) == if address == entry.0@ {
            Some(entry.1)
        } else {
            find_wallet(entries, address)
        },
    decreases at,
{
    let changed = entries.update(at, entry);
    if at > 0 {
        assert(changed.drop_first() =~= entries.drop_first().update(at - 1, entry));
        assert forall|j: int| 0 <= j < at - 1 implies entries.drop_first()[j].0@ != entry.0@ by {
            assert(entries.drop_first()[j] == entries[j + 1]);
        }
        lemma_find_wallet_update(entries.drop_first(), at - 1, entry, address);
        assert(entries[0].0@ != entry.0@);
    } else {
        assert(changed.drop_first() =~= entries.drop_first());
    }
}

proof fn lemma_find_wallet_push(
    entries: Seq<(String, Wallet)>,
    entry: (String, Wallet),
    address: Seq<char>,
)
    requires
        find_wallet(entries, entry.0@) is None,
    ensures
        find_wallet(entries.push(entry), address) == if address == entry.0@ {
            Some(entry.1)
        } else {
            find_wallet(entries, address)
        },
    decreases entries.len(),
{
    let longer = entries.push(entry);
    if entries.len() > 0 {
        assert(longer.drop_first() =~= entries.drop_first().push(entry));
        lemma_find_wallet_push(entries.drop_first(), entry, address);
    } else {
        assert(longer.drop_first() =~= entries);
    }
}

/// A list holds an address exactly where one of its entries has it.
proof fn lemma_find_wallet_some(entries: Seq<(String, Wallet)>, address: Seq<char>)
    ensures
        find_wallet(entries, address) is Some <==> exists|i: int|
            0 <= i < entries.len() && (#[trigger] entries[i]).0@ == address,
    decreases entries.len(),
{
    if entries.len() > 0 {
        let rest = entries.drop_first();
        lemma_find_wallet_some(rest, address);
        if entries[0].0@ != address {
            if find_wallet(rest, address) is Some {
                let i = choose|i: int| 0 <= i < rest.len() && (#[trigger] rest[i]).0@ == address;
                assert(entries[i + 1] == rest[i]);
            }
            if exists|i: int| 0 <= i < entries.len() && (#[trigger] entries[i]).0@ == address {
                let i = choose|i: int|
                    0 <= i < entries.len() && (#[trigger] entries[i]).0@ == address;
                assert(rest[i - 1] == entries[i]);
            }
        }
    }
}

/// The list of addresses after a wallet was put under `address`: as it was
/// where the address was listed, and with the address at its end where it was
/// not.
pub open spec fn addresses_with(listed: Seq<Seq<char>>, address: Seq<char>) -> Seq<Seq<char>> {
    if listed.contains(address) {
        listed
    } else {
        listed.push(address)
    }
}

/// A list of texts, as mathematical values.
pub open spec fn strings_view(texts: Seq<String>) -> Seq<Seq<char>> {
    texts.map_values(|a: String| a@)
}

/// Wallets, each under its address, in the order in which they came. No
/// address stands twice.
pub struct Wallets {
    wallets: Vec<(String, Wallet)>,
}

impl Wallets {
    #[verifier::type_invariant]
    spec fn distinct(&self) -> bool {
        forall|i: int, j: int|
            0 <= i < j < self.wallets@.len() ==> (#[trigger] self.wallets@[i]).0@ != (
            #[trigger] self.wallets@[j]).0@
    }

    /// Entries with distinct addresses list no address twice.
    proof fn lemma_addresses_distinct(&self)
        requires
            self.distinct(),
        ensures
            self.addresses().no_duplicates(),
    {
        let listed = self.addresses();
        assert forall|i: int, j: int|
            0 <= i < listed.len() && 0 <= j < listed.len() && i != j implies listed[i]
            != listed[j] by {
            assert(listed[i] == self.wallets@[i].0@);
            assert(listed[j] == self.wallets@[j].0@);
        }
    }

    /// The wallet held under `address`.
    pub closed spec fn wallet_of(&self, address: Seq<char>) -> Option<Wallet> {
        find_wallet(self.wallets@, address)
    }

    /// The addresses of the entries, oldest entry first.
    pub closed spec fn addresses(&self) -> Seq<Seq<char>> {
        self.wallets@.map_values(|e: (String, Wallet)| e.0@)
    }

    /// A wallet is held under exactly the addresses that are listed.
    pub proof fn lemma_listed_iff_held(&self, address: Seq<char>)
        ensures
            self.wallet_of(address) is Some <==> self.addresses().contains(address),
    {
        lemma_find_wallet_some(self.wallets@, address);
        let listed = self.addresses();
        if listed.contains(address) {
            let i = choose|i: int| 0 <= i < listed.len() && listed[i] == address;
            assert(self.wallets@[i].0@ == address);
        }
        if exists|i: int| 0 <= i < self.wallets@.len() && (#[trigger] self.wallets@[i]).0@ == address {
            let i = choose|i: int|
                0 <= i < self.wallets@.len() && (#[trigger] self.wallets@[i]).0@ == address;
            assert(listed[i] == address);
        }
    }

    /// An empty collection.
    pub fn new() -> (wallets: Self)
        ensures
            wallets.addresses().len() == 0,
            forall|address: Seq<char>| wallets.wallet_of(address) is None,
    {
        Wallets { wallets: Vec::new() }
    }

    /// Puts `wallet` under `address`, in place of a wallet that was there. A
    /// new address is listed last; the list of an address that was there stays
    /// as it was.
    pub fn insert(&mut self, address: String, wallet: Wallet)
        ensures
            forall|a: Seq<char>|
                #[trigger] final(self).wallet_of(a) == if a == address@ {
                    Some(wallet)
                } else {
                    old(self).wallet_of(a)
                },
            final(self).addresses() == addresses_with(old(self).addresses(), address@),
            final(self).addresses().no_duplicates(),
    {
        proof {
            use_type_invariant(&*self);
        }
        let ghost before = self.wallets@;
        let mut entries: Vec<(String, Wallet)> = Vec::new();
        swap(&mut self.wallets, &mut entries);
        let entry = (address, wallet);
        let mut i: usize = 0;
        let mut found = false;
        assert(before.skip(0) =~= before);
        while i < entries.len()
            invariant
                i <= entries@.len(),
                entries@ == before,
                found ==> i < before.len() && before[i as int].0@ == entry.0@,
                forall|j: int| 0 <= j < i ==> before[j].0@ != entry.0@,
                find_wallet(before, entry.0@) == find_wallet(before.skip(i as int), entry.0@),
            ensures
                found || i == entries@.len(),
            decreases entries@.len() - i,
        {
            if entries[i].0 == entry.0 {
                found = true;
                break ;
            }
            proof {
                let rest = before.skip(i as int);
                assert(rest[0] == before[i as int]);
                assert(rest.drop_first() =~= before.skip(i + 1));
            }
            i += 1;
        }
        if found {
            entries.set(i, entry);
            proof {
                assert forall|a: int, b: int| 0 <= a < b < entries@.len() implies (
                #[trigger] entries@[a]).0@ != (#[trigger] entries@[b]).0@ by {
                    assert(entries@[a].0@ == before[a].0@);
                    assert(entries@[b].0@ == before[b].0@);
                }
            }
        } else {
            assert(before.skip(i as int) =~= Seq::<(String, Wallet)>::empty());
            entries.push(entry);
            proof {
                assert forall|a: int, b: int| 0 <= a < b < entries@.len() implies (
                #[trigger] entries@[a]).0@ != (#[trigger] entries@[b]).0@ by {
                    assert(entries@[a] == before[a]);
                    if b < before.len() {
                        assert(entries@[b] == before[b]);
                    }
                }
            }
        }
        swap(&mut self.wallets, &mut entries);
        proof {
            self.lemma_addresses_distinct();
            let listed = old(self).addresses();
            if i < before.len() {
                assert(listed[i as int] == address@);
                assert(self.addresses() =~= listed);
            } else {
                assert(!listed.contains(address@)) by {
                    if listed.contains(address@) {
                        let j = choose|j: int| 0 <= j < listed.len() && listed[j] == address@;
                        assert(before[j].0@ == address@);
                    }
                }
                assert(self.addresses() =~= listed.push(address@));
            }
            assert forall|a: Seq<char>|
                #[trigger] self.wallet_of(a) == if a == address@ {
                    Some(wallet)
                } else {
                    old(self).wallet_of(a)
                } by {
                if i < before.len() {
                    lemma_find_wallet_update(before, i as int, entry, a);
                } else {
                    lemma_find_wallet_push(before, entry, a);
                }
            }
        }
    }

    /// Generates a wallet, keeps it under its address, and returns the
    /// address. Where no key pair can be generated the collection stays as it
    /// was.
    pub fn create_wallet(&mut self) -> (r: Result<String, ChainError>)
        ensures
            match r {
                Ok(address) => {
                    &&& address_valid(address@)
                    &&& final(self).wallet_of(address@) matches Some(wallet)
                    &&& wallet.consistent()
                    &&& address@ == address_of(wallet.pub_key_hash())
                    &&& forall|a: Seq<char>|
                        a != address@ ==> #[trigger] final(self).wallet_of(a) == old(self).wallet_of(
                            a,
                        )
                    &&& final(self).addresses() == addresses_with(old(self).addresses(), address@)
                    &&& final(self).addresses().no_duplicates()
                },
                Err(e) => {
                    &&& e == ChainError::CryptoFailure
                    &&& forall|a: Seq<char>|
                        #[trigger] final(self).wallet_of(a) == old(self).wallet_of(a)
                    &&& final(self).addresses() == old(self).addresses()
                },
            },
    {
        let wallet = match Wallet::new() {
            Ok(wallet) => wallet,
            Err(e) => { return Err(e); },
        };
        let address = wallet.address();
        self.insert(address.clone(), wallet);
        assert(self.wallet_of(address@) == Some(wallet));
        Ok(address)
    }

    /// The addresses of the wallets, oldest entry first.
    pub fn get_addresses(&self) -> (addresses: Vec<String>)
        ensures
            strings_view(addresses@) == self.addresses(),
            self.addresses().no_duplicates(),
    {
        proof {
            use_type_invariant(self);
            self.lemma_addresses_distinct();
        }
        let mut addresses: Vec<String> = Vec::new();
        let mut i: usize = 0;
        while i < self.wallets.len()
            invariant
                i <= self.wallets@.len(),
                strings_view(addresses@) == self.addresses().take(i as int),
            decreases self.wallets@.len() - i,
        {
            let address = self.wallets[i].0.clone();
            proof {
                let all = self.addresses();
                assert(all[i as int] == address@);
                assert(strings_view(addresses@.push(address)) =~= strings_view(addresses@).push(
                    address@,
                ));
                assert(all.take(i + 1) =~= all.take(i as int).push(all[i as int]));
            }
            addresses.push(address);
            i += 1;
        }
        assert(self.addresses().take(i as int) =~= self.addresses());
        addresses
    }

    /// The wallet held under `address`: there is one exactly where the address
    /// is listed.
    pub fn get_wallet(&self, address: &str) -> (r: Option<&Wallet>)
        ensures
            match r {
                Some(wallet) => self.wallet_of(address@) == Some(*wallet),
                None => self.wallet_of(address@) is None,
            },
            r is Some <==> self.addresses().contains(address@),
    {
        proof {
            self.lemma_listed_iff_held(address@);
        }
        let wanted: String = address.to_owned();
        let mut i: usize = 0;
        assert(self.wallets@.skip(0) =~= self.wallets@);
        while i < self.wallets.len()
            invariant
                i <= self.wallets@.len(),
                wanted@ == address@,
                self.wallet_of(address@) is Some <==> self.addresses().contains(address@),
                find_wallet(self.wallets@, address@) == find_wallet(
                    self.wallets@.skip(i as int),
                    address@,
                ),
            decreases self.wallets@.len() - i,
        {
            proof {
                let rest = self.wallets@.skip(i as int);
                assert(rest[0] == self.wallets@[i as int]);
                assert(rest.drop_first() =~= self.wallets@.skip(i + 1));
            }
            if self.wallets[i].0 == wanted {
                return Some(&self.wallets[i].1);
            }
            i += 1;
        }
        assert(self.wallets@.skip(i as int) =~= Seq::<(String, Wallet)>::empty());
        None
    }
}

} // verus!
