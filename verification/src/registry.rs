//! The registry coordinator: token store, ownership index and both
//! enumerable registries, kept mutually consistent by every operation.

use vstd::prelude::*;
use vstd::set_lib::{lemma_int_range, lemma_len_subset, set_int_range};

use crate::dna::{copy_bytes, crossover, crossover_spec, eq_bytes};
use crate::token::{events_view, Error, Event, EventView, Payment, Poke, HASH_LEN};

verus! {

/// One owner's enumerable registry: the dense array of the tokens the owner
/// currently holds, as positions into the global token array.
pub struct OwnerEntry {
    pub(crate) who: u64,
    pub(crate) toks: Vec<usize>,
}

/// The whole ledger state.
///
/// `tokens` is the global enumerable registry: a dense array of all token
/// records, where a token's global index is its position and never changes.
/// `slot[i]` names the owner entry that currently holds token `i`, and
/// `pos[i]` its position inside that entry's dense array, so membership,
/// position lookup, insert and swap-remove are all constant-time.
pub struct Registry {
    pub(crate) tokens: Vec<Poke>,
    pub(crate) slot: Vec<usize>,
    pub(crate) pos: Vec<usize>,
    pub(crate) owned: Vec<OwnerEntry>,
    pub(crate) nonce: u64,
    pub(crate) events: Vec<Event>,
}

/// The result of removing position `p` by overwriting it with the last
/// element and shrinking the sequence by one.
pub open spec fn swap_removed<A>(s: Seq<A>, p: int) -> Seq<A> {
    s.update(p, s.last()).drop_last()
}

/// Whether a token with this identifier occurs in a token array.
spec fn has_in(toks: Seq<Poke>, id: Seq<u8>) -> bool {
    exists|i: int| 0 <= i < toks.len() && toks[i].id@ == id
}

/// The index at which a token with this identifier occurs in a token array.
spec fn idx_in(toks: Seq<Poke>, id: Seq<u8>) -> int {
    choose|i: int| 0 <= i < toks.len() && toks[i].id@ == id
}

/// Whether an owner has an entry in an entry array.
spec fn has_ent(ents: Seq<OwnerEntry>, who: u64) -> bool {
    exists|k: int| 0 <= k < ents.len() && ents[k].who == who
}

/// The index of an owner's entry in an entry array.
spec fn ent_of(ents: Seq<OwnerEntry>, who: u64) -> int {
    choose|k: int| 0 <= k < ents.len() && ents[k].who == who
}

/// The identifiers of the listed tokens, position by position.
spec fn ids_of(ts: Seq<usize>, toks: Seq<Poke>) -> Seq<Seq<u8>> {
    ts.map(|p: int, t: usize| toks[t as int].id@)
}

/// An owner entry's token positions as a set of global indexes.
spec fn entry_idx_set(e: OwnerEntry) -> Set<int> {
    Seq::<int>::new(e.toks@.len(), |q: int| e.toks@[q] as int).to_set()
}

/// All global indexes held by the listed owner entries.
spec fn idx_set(ents: Seq<OwnerEntry>) -> Set<int>
    decreases ents.len(),
{
    if ents.len() == 0 {
        Set::empty()
    } else {
        idx_set(ents.drop_last()).union(entry_idx_set(ents.last()))
    }
}

/// The sum of the listed owner entries' counts.
spec fn sum_of(ents: Seq<OwnerEntry>) -> nat
    decreases ents.len(),
{
    if ents.len() == 0 {
        0
    } else {
        sum_of(ents.drop_last()) + ents.last().toks@.len()
    }
}

/// Two disjoint finite sets unite into one of exactly the summed size.
proof fn lemma_disjoint_union_len<A>(s1: Set<A>, s2: Set<A>)
    requires
        s1.finite(),
        s2.finite(),
        s1.intersect(s2) == Set::<A>::empty(),
    ensures
        s1.union(s2).finite(),
        s1.union(s2).len() == s1.len() + s2.len(),
    decreases s1.len(),
{
    if s1.len() == 0 {
        s1.lemma_len0_is_empty();
        assert(s1.union(s2) =~= s2);
    } else {
        let a = s1.choose();
        assert(s1.contains(a));
        assert(!s2.contains(a)) by {
            assert(!s1.intersect(s2).contains(a));
        }
        assert(s1.remove(a).intersect(s2) =~= Set::<A>::empty());
        lemma_disjoint_union_len(s1.remove(a), s2);
        assert(s1.union(s2) =~= s1.remove(a).union(s2).insert(a));
        assert(!s1.remove(a).union(s2).contains(a));
    }
}

/// Law (swap-remove correctness): removing any position from a
/// duplicate-free sequence by swap-remove keeps every other element, keeps
/// them duplicate-free, and leaves no gap: the result is one shorter and
/// holds exactly the old elements but the removed one.
pub proof fn lemma_swap_removed_members<A>(s: Seq<A>, p: int)
    requires
        0 <= p < s.len(),
        s.no_duplicates(),
    ensures
        swap_removed(s, p).len() == s.len() - 1,
        swap_removed(s, p).no_duplicates(),
        forall|x: A| swap_removed(s, p).contains(x) <==> (s.contains(x) && x != s[p]),
{
    let r = swap_removed(s, p);
    let n = s.len() as int;
    assert forall|q1: int, q2: int|
        0 <= q1 < r.len() && 0 <= q2 < r.len() && q1 != q2 implies r[q1] != r[q2] by {
        let m1: int = if q1 == p {
            n - 1
        } else {
            q1
        };
        let m2: int = if q2 == p {
            n - 1
        } else {
            q2
        };
        assert(r[q1] == s[m1] && r[q2] == s[m2]);
        assert(m1 != m2);
    }
    assert forall|x: A| r.contains(x) implies (s.contains(x) && x != s[p]) by {
        let q = choose|q: int| 0 <= q < r.len() && r[q] == x;
        let m: int = if q == p {
            n - 1
        } else {
            q
        };
        assert(s[m] == x);
        assert(m != p);
    }
    assert forall|x: A| s.contains(x) && x != s[p] implies r.contains(x) by {
        let ix = choose|ix: int| 0 <= ix < s.len() && s[ix] == x;
        assert(ix != p);
        if ix == n - 1 {
            assert(p != n - 1);
            assert(r[p] == x);
        } else {
            assert(r[ix] == x);
        }
    }
}

impl Registry {
    /// Mutual consistency of the four views: token identifiers are unique,
    /// owner entries are keyed by distinct owners, and the forward indexes
    /// (`slot`, `pos`) and the owner arrays are inverse to one another.
    pub closed spec fn wf(self) -> bool {
        &&& self.slot@.len() == self.tokens@.len()
        &&& self.pos@.len() == self.tokens@.len()
        &&& forall|i: int, j: int|
            0 <= i < j < self.tokens@.len() ==> self.tokens@[i].id@ != self.tokens@[j].id@
        &&& forall|i: int| 0 <= i < self.tokens@.len() ==> (#[trigger] self.tokens@[i]).wf()
        &&& forall|a: int, b: int|
            0 <= a < b < self.owned@.len() ==> self.owned@[a].who != self.owned@[b].who
        &&& forall|i: int|
            0 <= i < self.tokens@.len() ==> {
                &&& (#[trigger] self.slot@[i]) < self.owned@.len()
                &&& self.pos@[i] < self.owned@[self.slot@[i] as int].toks@.len()
                &&& self.owned@[self.slot@[i] as int].toks@[self.pos@[i] as int] == i
            }
        &&& forall|k: int, p: int|
            0 <= k < self.owned@.len() && 0 <= p < self.owned@[k].toks@.len() ==> {
                &&& (#[trigger] self.owned@[k].toks@[p]) < self.tokens@.len()
                &&& self.slot@[self.owned@[k].toks@[p] as int] == k
                &&& self.pos@[self.owned@[k].toks@[p] as int] == p
            }
    }

    /// How many tokens have ever been minted.
    pub closed spec fn total(self) -> nat {
        self.tokens@.len()
    }

    /// The global enumerable registry, as the sequence of token identifiers
    /// in creation order.
    pub closed spec fn global_ids(self) -> Seq<Seq<u8>> {
        self.tokens@.map(|i: int, t: Poke| t.id@)
    }

    /// The identifier at global position `n`.
    pub open spec fn id_at(self, n: int) -> Seq<u8> {
        self.global_ids()[n]
    }

    /// Whether a token with this identifier is registered.
    pub closed spec fn has_token(self, id: Seq<u8>) -> bool {
        has_in(self.tokens@, id)
    }

    /// The global index of the token with this identifier.
    pub closed spec fn index_of(self, id: Seq<u8>) -> int {
        idx_in(self.tokens@, id)
    }

    /// The dna of the token with this identifier.
    pub closed spec fn dna_of(self, id: Seq<u8>) -> Seq<u8> {
        self.tokens@[self.index_of(id)].dna@
    }

    /// The asking price of the token with this identifier; `0` means it is
    /// not for sale.
    pub closed spec fn price_of(self, id: Seq<u8>) -> u64 {
        self.tokens@[self.index_of(id)].price
    }

    /// The generation of the token with this identifier.
    pub closed spec fn gen_of(self, id: Seq<u8>) -> u64 {
        self.tokens@[self.index_of(id)].gen
    }

    /// The current owner of the token with this identifier.
    pub closed spec fn owner_of_spec(self, id: Seq<u8>) -> u64 {
        self.owned@[self.slot@[self.index_of(id)] as int].who
    }

    /// Whether this owner has an entry (owners keep their entry even after
    /// their last token is transferred away).
    pub closed spec fn has_entry(self, who: u64) -> bool {
        has_ent(self.owned@, who)
    }

    /// The index of this owner's entry.
    pub closed spec fn entry_of(self, who: u64) -> int {
        ent_of(self.owned@, who)
    }

    /// This owner's enumerable registry, as the sequence of identifiers of
    /// the tokens the owner currently holds, by position.
    pub closed spec fn owned_ids(self, who: u64) -> Seq<Seq<u8>> {
        if self.has_entry(who) {
            ids_of(self.owned@[self.entry_of(who)].toks@, self.tokens@)
        } else {
            Seq::empty()
        }
    }

    /// How many tokens this owner currently holds.
    pub open spec fn owned_count_spec(self, who: u64) -> nat {
        self.owned_ids(who).len()
    }

    /// The position the token with this identifier occupies in its owner's
    /// registry.
    pub closed spec fn pos_of(self, id: Seq<u8>) -> int {
        self.pos@[self.index_of(id)] as int
    }

    /// The per-process nonce that the host mixes into fresh identifiers.
    pub closed spec fn nonce_spec(self) -> u64 {
        self.nonce
    }

    /// Every notice published so far, oldest first.
    pub closed spec fn events_spec(self) -> Seq<EventView> {
        events_view(self.events@)
    }

    /// Token identifiers are unique, so the index of a stored token is the
    /// index `index_of` picks for its identifier.
    proof fn lemma_index_unique(self, i: int)
        requires
            self.wf(),
            0 <= i < self.tokens@.len(),
        ensures
            self.has_token(self.tokens@[i].id@),
            self.index_of(self.tokens@[i].id@) == i,
    {
        let id = self.tokens@[i].id@;
        assert(self.has_token(id));
        let j = self.index_of(id);
        if i < j {
            assert(self.tokens@[i].id@ != self.tokens@[j].id@);
        } else if j < i {
            assert(self.tokens@[j].id@ != self.tokens@[i].id@);
        }
    }

    /// Owner identities are unique, so the entry holding a given owner is the
    /// one `entry_of` picks.
    proof fn lemma_entry_unique(self, k: int)
        requires
            self.wf(),
            0 <= k < self.owned@.len(),
        ensures
            self.has_entry(self.owned@[k].who),
            self.entry_of(self.owned@[k].who) == k,
    {
        let who = self.owned@[k].who;
        assert(self.has_entry(who));
        let j = self.entry_of(who);
        if k < j {
            assert(self.owned@[k].who != self.owned@[j].who);
        } else if j < k {
            assert(self.owned@[j].who != self.owned@[k].who);
        }
    }

    /// Find the global index of the token with this identifier.
    fn find_token(&self, id: &Vec<u8>) -> (r: Option<usize>)
        ensures
            match r {
                Some(i) => i < self.tokens@.len() && self.tokens@[i as int].id@ == id@,
                None => !self.has_token(id@),
            },
    {
        let n = self.tokens.len();
        let mut i: usize = 0;
        while i < n
            invariant
                i <= n,
                n == self.tokens@.len(),
                forall|j: int| 0 <= j < i ==> self.tokens@[j].id@ != id@,
            decreases n - i,
        {
            if eq_bytes(&self.tokens[i].id, id) {
                return Some(i);
            }
            i = i + 1;
        }
        None
    }

    /// Find the entry of this owner.
    fn find_entry(&self, who: u64) -> (r: Option<usize>)
        ensures
            match r {
                Some(k) => k < self.owned@.len() && self.owned@[k as int].who == who,
                None => !self.has_entry(who),
            },
    {
        let n = self.owned.len();
        let mut k: usize = 0;
        while k < n
            invariant
                k <= n,
                n == self.owned@.len(),
                forall|j: int| 0 <= j < k ==> self.owned@[j].who != who,
            decreases n - k,
        {
            if self.owned[k].who == who {
                return Some(k);
            }
            k = k + 1;
        }
        None
    }

    /// An empty ledger: no tokens, no owners, nonce zero, no events.
    pub fn new() -> (r: Registry)
        ensures
            r.wf(),
            r.total() == 0,
            r.nonce_spec() == 0,
            r.events_spec() == Seq::<EventView>::empty(),
            forall|id: Seq<u8>| !r.has_token(id),
            forall|w: u64| r.owned_ids(w) == Seq::<Seq<u8>>::empty(),
    {
        let r = Registry {
            tokens: Vec::new(),
            slot: Vec::new(),
            pos: Vec::new(),
            owned: Vec::new(),
            nonce: 0,
            events: Vec::new(),
        };
        proof {
            assert(r.events_spec() =~= Seq::<EventView>::empty());
            assert(r.global_ids() =~= Seq::<Seq<u8>>::empty());
            assert(forall|w: u64| !r.has_entry(w));
        }
        r
    }

    /// Who owns the token with this identifier, if it exists.
    pub fn owner_of(&self, id: &Vec<u8>) -> (r: Option<u64>)
        requires
            self.wf(),
        ensures
            match r {
                Some(w) => self.has_token(id@) && w == self.owner_of_spec(id@),
                None => !self.has_token(id@),
            },
    {
        match self.find_token(id) {
            None => None,
            Some(i) => {
                proof {
                    self.lemma_index_unique(i as int);
                }
                let k = self.slot[i];
                Some(self.owned[k].who)
            },
        }
    }

    /// A copy of the token record with this identifier, if it exists.
    pub fn poke(&self, id: &Vec<u8>) -> (r: Option<Poke>)
        requires
            self.wf(),
        ensures
            match r {
                Some(t) => {
                    &&& self.has_token(id@)
                    &&& t.id@ == id@
                    &&& t.dna@ == self.dna_of(id@)
                    &&& t.price == self.price_of(id@)
                    &&& t.gen == self.gen_of(id@)
                },
                None => !self.has_token(id@),
            },
    {
        match self.find_token(id) {
            None => None,
            Some(i) => {
                proof {
                    self.lemma_index_unique(i as int);
                }
                let t = Poke {
                    id: copy_bytes(&self.tokens[i].id),
                    dna: copy_bytes(&self.tokens[i].dna),
                    price: self.tokens[i].price,
                    gen: self.tokens[i].gen,
                };
                Some(t)
            },
        }
    }

    /// How many tokens have ever been minted.
    pub fn all_poke_count(&self) -> (r: u64)
        ensures
            r as nat == self.total(),
    {
        self.tokens.len() as u64
    }

    /// The identifier at global position `n`, if `n` is below the count.
    pub fn poke_by_index(&self, n: u64) -> (r: Option<Vec<u8>>)
        ensures
            match r {
                Some(v) => n < self.total() && v@ == self.id_at(n as int),
                None => n >= self.total(),
            },
    {
        if n < self.tokens.len() as u64 {
            Some(copy_bytes(&self.tokens[n as usize].id))
        } else {
            None
        }
    }

    /// How many tokens this owner currently holds.
    pub fn owned_poke_count(&self, who: u64) -> (r: u64)
        requires
            self.wf(),
        ensures
            r as nat == self.owned_count_spec(who),
    {
        match self.find_entry(who) {
            None => 0,
            Some(k) => {
                proof {
                    self.lemma_entry_unique(k as int);
                }
                self.owned[k].toks.len() as u64
            },
        }
    }

    /// The identifier at position `n` of this owner's registry, if occupied.
    pub fn poke_of_owner_by_index(&self, who: u64, n: u64) -> (r: Option<Vec<u8>>)
        requires
            self.wf(),
        ensures
            match r {
                Some(v) => n < self.owned_count_spec(who) && v@ == self.owned_ids(who)[n as int],
                None => n >= self.owned_count_spec(who),
            },
    {
        match self.find_entry(who) {
            None => None,
            Some(k) => {
                proof {
                    self.lemma_entry_unique(k as int);
                }
                if n < self.owned[k].toks.len() as u64 {
                    let t = self.owned[k].toks[n as usize];
                    Some(copy_bytes(&self.tokens[t].id))
                } else {
                    None
                }
            },
        }
    }

    /// The per-process nonce the host mixes into fresh identifiers.
    pub fn nonce(&self) -> (r: u64)
        ensures
            r == self.nonce_spec(),
    {
        self.nonce
    }

    /// What a successful mint changes: the token is appended to the global
    /// registry and to `to`'s registry, everything else is untouched.
    pub open spec fn minted(
        pre: Registry,
        post: Registry,
        to: u64,
        id: Seq<u8>,
        dna: Seq<u8>,
        price: u64,
        gen: u64,
    ) -> bool {
        &&& !pre.has_token(id)
        &&& post.total() == pre.total() + 1
        &&& post.global_ids() == pre.global_ids().push(id)
        &&& post.has_token(id)
        &&& post.owner_of_spec(id) == to
        &&& post.dna_of(id) == dna
        &&& post.price_of(id) == price
        &&& post.gen_of(id) == gen
        &&& forall|x: Seq<u8>| x != id ==> (post.has_token(x) <==> pre.has_token(x))
        &&& forall|x: Seq<u8>|
            pre.has_token(x) ==> {
                &&& post.owner_of_spec(x) == pre.owner_of_spec(x)
                &&& post.dna_of(x) == pre.dna_of(x)
                &&& post.price_of(x) == pre.price_of(x)
                &&& post.gen_of(x) == pre.gen_of(x)
            }
        &&& post.owned_ids(to) == pre.owned_ids(to).push(id)
        &&& forall|w: u64| w != to ==> post.owned_ids(w) == pre.owned_ids(w)
    }

    /// Register a fully populated token record as `to`'s property.
    ///
    /// Fails with `AlreadyExists` when the identifier is taken, and with
    /// `Overflow` when either the owner's count or the global count is at the
    /// maximum representable value; an error leaves the ledger unchanged.
    pub fn mint(&mut self, to: u64, p: Poke) -> (r: Result<(), Error>)
        requires
            old(self).wf(),
            p.wf(),
        ensures
            final(self).wf(),
            match r {
                Ok(()) => {
                    &&& Self::minted(*old(self), *final(self), to, p.id@, p.dna@, p.price, p.gen)
                    &&& old(self).owned_count_spec(to) < u64::MAX
                    &&& old(self).total() < u64::MAX
                    &&& final(self).events_spec() == old(self).events_spec().push(
                        EventView::Created { who: to, id: p.id@ },
                    )
                    &&& final(self).nonce_spec() == old(self).nonce_spec()
                },
                Err(e) => {
                    &&& *final(self) == *old(self)
                    &&& (e == Error::AlreadyExists || e == Error::Overflow)
                    &&& (e == Error::AlreadyExists <==> old(self).has_token(p.id@))
                    &&& (e == Error::Overflow ==> (old(self).owned_count_spec(to) == u64::MAX
                        || old(self).total() == u64::MAX))
                },
            },
    {
        if self.find_token(&p.id).is_some() {
            return Err(Error::AlreadyExists);
        }
        let k_found = self.find_entry(to);
        let owned_len: usize = match k_found {
            Some(k) => {
                proof {
                    self.lemma_entry_unique(k as int);
                }
                self.owned[k].toks.len()
            },
            None => 0,
        };
        if owned_len as u64 == u64::MAX {
            return Err(Error::Overflow);
        }
        if self.tokens.len() as u64 == u64::MAX {
            return Err(Error::Overflow);
        }
        let ghost pre = *self;
        let i = self.tokens.len();
        let k: usize = match k_found {
            Some(k) => k,
            None => {
                self.owned.push(OwnerEntry { who: to, toks: Vec::new() });
                self.owned.len() - 1
            },
        };
        let id_copy = copy_bytes(&p.id);
        let ghost idv = p.id@;
        self.tokens.push(p);
        self.slot.push(k);
        let newpos = self.owned[k].toks.len();
        self.pos.push(newpos);
        self.owned[k].toks.push(i);
        self.events.push(Event::Created(to, id_copy));
        proof {
            if pre.has_entry(to) {
            } else {
                assert(pre.owned@ =~= self.owned@.take(k as int));
            }
            assert(self.tokens@.take(pre.tokens@.len() as int) =~= pre.tokens@);
            self.lemma_mint_shape(pre, to, k, i, newpos, idv);
        }
        Ok(())
    }

    /// After the raw insertions of `mint`, the ledger is well formed again
    /// and relates to the previous state as `minted` says.
    proof fn lemma_mint_shape(self, pre: Registry, to: u64, k: usize, i: usize, np: usize, id: Seq<u8>)
        requires
            pre.wf(),
            !pre.has_token(id),
            i as int == pre.tokens@.len(),
            pre.has_entry(to) ==> k as int == pre.entry_of(to) && self.owned@.len()
                == pre.owned@.len(),
            !pre.has_entry(to) ==> k as int == pre.owned@.len() && self.owned@.len()
                == pre.owned@.len() + 1 && pre.owned@ == self.owned@.take(k as int),
            (k as int) < self.owned@.len(),
            self.owned@[k as int].who == to,
            self.owned@[k as int].toks@ == (if pre.has_entry(to) {
                pre.owned@[k as int].toks@
            } else {
                Seq::<usize>::empty()
            }).push(i),
            forall|j: int|
                0 <= j < self.owned@.len() && j != k as int ==> 0 <= j < pre.owned@.len()
                    && self.owned@[j] == pre.owned@[j],
            self.tokens@.len() == pre.tokens@.len() + 1,
            self.tokens@.take(pre.tokens@.len() as int) == pre.tokens@,
            self.tokens@.last().id@ == id,
            self.tokens@.last().wf(),
            self.slot@ == pre.slot@.push(k),
            self.pos@ == pre.pos@.push(np),
            np as int == self.owned@[k as int].toks@.len() - 1,
        ensures
            self.wf(),
            Self::minted(
                pre,
                self,
                to,
                id,
                self.tokens@.last().dna@,
                self.tokens@.last().price,
                self.tokens@.last().gen,
            ),
    {
        let n = pre.tokens@.len() as int;
        assert forall|j: int| 0 <= j < n implies self.tokens@[j] == pre.tokens@[j] by {
            assert(self.tokens@.take(n)[j] == self.tokens@[j]);
        }
        assert forall|i: int, j: int| 0 <= i < j < self.tokens@.len() implies self.tokens@[i].id@
            != self.tokens@[j].id@ by {
            if j < n {
            } else {
                assert(!pre.has_token(id));
                assert(pre.tokens@[i].id@ != id);
            }
        }
        assert forall|a: int, b: int| 0 <= a < b < self.owned@.len() implies self.owned@[a].who
            != self.owned@[b].who by {
            if !pre.has_entry(to) && b == k as int {
                assert(self.owned@[a] == pre.owned@[a]);
                assert(pre.owned@[a].who != to);
            }
        }
        let toks_new = self.owned@[k as int].toks@;
        assert forall|t: int| 0 <= t < self.tokens@.len() implies {
            &&& (#[trigger] self.slot@[t]) < self.owned@.len()
            &&& self.pos@[t] < self.owned@[self.slot@[t] as int].toks@.len()
            &&& self.owned@[self.slot@[t] as int].toks@[self.pos@[t] as int] == t
        } by {
            if t < n {
                assert(pre.slot@[t] < pre.owned@.len());
                let j = pre.slot@[t] as int;
                assert(self.slot@[t] == pre.slot@[t]);
                assert(self.pos@[t] == pre.pos@[t]);
                if j == k as int {
                    assert(pre.has_entry(to)) by {
                        pre.lemma_entry_unique(j);
                    }
                    assert(toks_new[pre.pos@[t] as int] == pre.owned@[j].toks@[pre.pos@[t] as int]);
                } else {
                    assert(self.owned@[j] == pre.owned@[j]);
                }
            } else {
                assert(self.slot@[t] == k);
                assert(self.pos@[t] == np);
                assert(toks_new[np as int] == i);
            }
        }
        assert forall|k2: int, p2: int|
            0 <= k2 < self.owned@.len() && 0 <= p2 < self.owned@[k2].toks@.len() implies {
            &&& (#[trigger] self.owned@[k2].toks@[p2]) < self.tokens@.len()
            &&& self.slot@[self.owned@[k2].toks@[p2] as int] == k2
            &&& self.pos@[self.owned@[k2].toks@[p2] as int] == p2
        } by {
            if k2 == k as int {
                if pre.has_entry(to) && p2 < pre.owned@[k2].toks@.len() {
                    let t = pre.owned@[k2].toks@[p2] as int;
                    assert(t < n && pre.slot@[t] == k2 && pre.pos@[t] == p2);
                    assert(self.slot@[t] == pre.slot@[t] && self.pos@[t] == pre.pos@[t]);
                } else {
                    assert(p2 == np as int);
                    assert(self.owned@[k2].toks@[p2] == i);
                }
            } else {
                assert(self.owned@[k2] == pre.owned@[k2]);
                let t = pre.owned@[k2].toks@[p2] as int;
                assert(t < n && pre.slot@[t] == k2 && pre.pos@[t] == p2);
                assert(self.slot@[t] == pre.slot@[t] && self.pos@[t] == pre.pos@[t]);
            }
        }
        assert(self.wf());
        // the new token sits at index n with entry k and the last position
        self.lemma_index_unique(n);
        self.lemma_entry_unique(k as int);
        assert(self.global_ids() =~= pre.global_ids().push(id));
        assert forall|x: Seq<u8>| x != id implies (self.has_token(x) <==> pre.has_token(
            x,
        )) by {
            if self.has_token(x) {
                let i = self.index_of(x);
                assert(0 <= i < n);
            }
        }
        assert forall|x: Seq<u8>| pre.has_token(x) implies {
            &&& self.owner_of_spec(x) == pre.owner_of_spec(x)
            &&& self.dna_of(x) == pre.dna_of(x)
            &&& self.price_of(x) == pre.price_of(x)
            &&& self.gen_of(x) == pre.gen_of(x)
        } by {
            let i = pre.index_of(x);
            pre.lemma_index_unique(i);
            self.lemma_index_unique(i);
            pre.lemma_entry_unique(pre.slot@[i] as int);
        }
        if pre.has_entry(to) {
            pre.lemma_entry_unique(k as int);
            assert(self.owned_ids(to) =~= pre.owned_ids(to).push(id));
        } else {
            assert(self.owned_ids(to) =~= pre.owned_ids(to).push(id));
        }
        assert forall|w: u64| w != to implies self.owned_ids(w) == pre.owned_ids(w) by {
            if pre.has_entry(w) {
                let kw = pre.entry_of(w);
                pre.lemma_entry_unique(kw);
                self.lemma_entry_unique(kw);
                assert(self.owned_ids(w) =~= pre.owned_ids(w));
            } else {
                assert(!self.has_entry(w)) by {
                    if self.has_entry(w) {
                        let kw = self.entry_of(w);
                        assert(0 <= kw < pre.owned@.len() && pre.owned@[kw].who == w);
                    }
                }
            }
        }
    }

    /// What a successful transfer changes: the token leaves `from`'s registry
    /// by swap-remove, is appended to `to`'s registry, its owner becomes
    /// `to`, and every token record stays as it was.
    pub open spec fn transferred(pre: Registry, post: Registry, from: u64, to: u64, id: Seq<
        u8,
    >) -> bool {
        &&& pre.has_token(id)
        &&& pre.owner_of_spec(id) == from
        &&& post.total() == pre.total()
        &&& post.global_ids() == pre.global_ids()
        &&& forall|x: Seq<u8>| post.has_token(x) <==> pre.has_token(x)
        &&& forall|x: Seq<u8>|
            pre.has_token(x) ==> {
                &&& post.dna_of(x) == pre.dna_of(x)
                &&& post.price_of(x) == pre.price_of(x)
                &&& post.gen_of(x) == pre.gen_of(x)
            }
        &&& post.owner_of_spec(id) == to
        &&& forall|x: Seq<u8>|
            pre.has_token(x) && x != id ==> post.owner_of_spec(x) == pre.owner_of_spec(x)
        &&& ({
            let p = pre.pos_of(id);
            &&& 0 <= p < pre.owned_ids(from).len()
            &&& pre.owned_ids(from)[p] == id
            &&& if from == to {
                post.owned_ids(from) == swap_removed(pre.owned_ids(from), p).push(id)
            } else {
                &&& post.owned_ids(from) == swap_removed(pre.owned_ids(from), p)
                &&& post.owned_ids(to) == pre.owned_ids(to).push(id)
            }
        })
        &&& forall|w: u64| w != from && w != to ==> post.owned_ids(w) == pre.owned_ids(w)
    }

    /// Move the token with this identifier from `from`'s registry to `to`'s.
    ///
    /// Fails with `NotFound` when no such token exists, `NotOwner` when
    /// `from` is not its current owner, and `Overflow` when `to`'s count is
    /// at the maximum representable value; an error leaves the ledger
    /// unchanged. The vacated position in `from`'s registry is filled by
    /// `from`'s last token, so the registry stays dense.
    pub fn transfer_from(&mut self, from: u64, to: u64, id: &Vec<u8>) -> (r: Result<(), Error>)
        requires
            old(self).wf(),
        ensures
            final(self).wf(),
            match r {
                Ok(()) => {
                    &&& Self::transferred(*old(self), *final(self), from, to, id@)
                    &&& old(self).owned_count_spec(to) < u64::MAX
                    &&& final(self).events_spec() == old(self).events_spec().push(
                        EventView::Transferred { from, to, id: id@ },
                    )
                    &&& final(self).nonce_spec() == old(self).nonce_spec()
                },
                Err(e) => {
                    &&& *final(self) == *old(self)
                    &&& (e == Error::NotFound || e == Error::NotOwner || e == Error::Overflow)
                    &&& (e == Error::NotFound <==> !old(self).has_token(id@))
                    &&& (e == Error::NotOwner <==> old(self).has_token(id@) && old(
                        self,
                    ).owner_of_spec(id@) != from)
                    &&& (e == Error::Overflow <==> old(self).has_token(id@) && old(
                        self,
                    ).owner_of_spec(id@) == from && old(self).owned_count_spec(to) == u64::MAX)
                },
            },
    {
        let i = match self.find_token(id) {
            None => {
                return Err(Error::NotFound);
            },
            Some(i) => i,
        };
        proof {
            self.lemma_index_unique(i as int);
        }
        let k_from = self.slot[i];
        proof {
            self.lemma_entry_unique(k_from as int);
        }
        let owner = self.owned[k_from].who;
        if owner != from {
            return Err(Error::NotOwner);
        }
        let k_to_found = self.find_entry(to);
        let to_len: usize = match k_to_found {
            Some(k) => {
                proof {
                    self.lemma_entry_unique(k as int);
                }
                self.owned[k].toks.len()
            },
            None => 0,
        };
        if to_len as u64 == u64::MAX {
            return Err(Error::Overflow);
        }
        let from_len = self.owned[k_from].toks.len();
        if from_len == 0 {
            // unreachable: `from` holds the token, so its count is positive
            proof {
                assert(self.pos@[i as int] < self.owned@[self.slot@[i as int] as int].toks@.len());
            }
            return Err(Error::Underflow);
        }
        let ghost pre = *self;
        // swap-remove the token from the owner's dense array
        let p = self.pos[i];
        let lastp = from_len - 1;
        let ghost lt = pre.owned@[k_from as int].toks@[lastp as int];
        if p != lastp {
            let last_tok = self.owned[k_from].toks[lastp];
            self.owned[k_from].toks.set(p, last_tok);
            self.pos.set(last_tok, p);
        }
        let _popped = self.owned[k_from].toks.pop();
        // append it to the recipient's dense array
        let k_to: usize = match k_to_found {
            Some(k) => k,
            None => {
                self.owned.push(OwnerEntry { who: to, toks: Vec::new() });
                self.owned.len() - 1
            },
        };
        let newpos = self.owned[k_to].toks.len();
        self.owned[k_to].toks.push(i);
        self.slot.set(i, k_to);
        self.pos.set(i, newpos);
        self.events.push(Event::Transferred(from, to, copy_bytes(id)));
        proof {
            let kf = k_from as int;
            let kt = k_to as int;
            let toks_pre = pre.owned@[kf].toks@;
            if from == to {
                pre.lemma_entry_unique(kf);
                assert(k_from == k_to);
            }
            if k_from == k_to {
                assert(from == to);
                assert(self.owned@[kf].toks@ =~= swap_removed(toks_pre, p as int).push(i));
            } else {
                assert(self.owned@[kf].toks@ =~= swap_removed(toks_pre, p as int));
                assert(self.owned@[kt].toks@ =~= (if pre.has_entry(to) {
                    pre.owned@[kt].toks@
                } else {
                    Seq::<usize>::empty()
                }).push(i));
            }
            assert(self.slot@ =~= pre.slot@.update(i as int, k_to));
            assert(self.pos@ =~= (if p as int != toks_pre.len() - 1 {
                pre.pos@.update(lt as int, p)
            } else {
                pre.pos@
            }).update(i as int, newpos));
            self.lemma_transfer_shape(pre, from, to, i, k_from, k_to, p, lt, newpos, id@);
        }
        Ok(())
    }

    /// After the raw array edits of `transfer_from`, the ledger is well
    /// formed again and relates to the previous state as `transferred` says.
    proof fn lemma_transfer_shape(
        self,
        pre: Registry,
        from: u64,
        to: u64,
        i: usize,
        k_from: usize,
        k_to: usize,
        p: usize,
        lt: usize,
        newpos: usize,
        id: Seq<u8>,
    )
        requires
            pre.wf(),
            (i as int) < pre.tokens@.len(),
            pre.tokens@[i as int].id@ == id,
            pre.slot@[i as int] == k_from,
            pre.pos@[i as int] == p,
            pre.owned@[k_from as int].who == from,
            lt == pre.owned@[k_from as int].toks@.last(),
            (k_from == k_to) <==> (from == to),
            pre.has_entry(to) ==> k_to as int == pre.entry_of(to) && self.owned@.len()
                == pre.owned@.len(),
            !pre.has_entry(to) ==> k_to as int == pre.owned@.len() && self.owned@.len()
                == pre.owned@.len() + 1,
            (k_to as int) < self.owned@.len(),
            self.owned@[k_to as int].who == to,
            k_from == k_to ==> self.owned@[k_from as int].toks@ == swap_removed(
                pre.owned@[k_from as int].toks@,
                p as int,
            ).push(i),
            k_from != k_to ==> {
                &&& self.owned@[k_from as int].who == from
                &&& self.owned@[k_from as int].toks@ == swap_removed(
                    pre.owned@[k_from as int].toks@,
                    p as int,
                )
                &&& self.owned@[k_to as int].toks@ == (if pre.has_entry(to) {
                    pre.owned@[k_to as int].toks@
                } else {
                    Seq::<usize>::empty()
                }).push(i)
            },
            forall|j: int|
                0 <= j < self.owned@.len() && j != k_from as int && j != k_to as int ==> 0 <= j
                    < pre.owned@.len() && self.owned@[j] == pre.owned@[j],
            newpos as int == self.owned@[k_to as int].toks@.len() - 1,
            self.tokens@ == pre.tokens@,
            self.slot@ == pre.slot@.update(i as int, k_to),
            self.pos@ == (if p as int != pre.owned@[k_from as int].toks@.len() - 1 {
                pre.pos@.update(lt as int, p)
            } else {
                pre.pos@
            }).update(i as int, newpos),
        ensures
            self.wf(),
            Self::transferred(pre, self, from, to, id),
    {
        let ip = i as int;
        let kf = k_from as int;
        let kt = k_to as int;
        let toks_pre = pre.owned@[kf].toks@;
        let L = toks_pre.len() as int;
        let mid = swap_removed(toks_pre, p as int);
        // facts about the moved and the swapped token in the old state
        assert(pre.slot@[ip] < pre.owned@.len() && pre.pos@[ip] < toks_pre.len() && toks_pre[p as int]
            == ip);
        assert(toks_pre[L - 1] < pre.tokens@.len() && pre.slot@[lt as int] == kf && pre.pos@[lt as int]
            == L - 1);
        assert(p as int == L - 1 ==> lt == i);
        assert(p as int != L - 1 ==> lt != i);
        pre.lemma_index_unique(ip);
        pre.lemma_entry_unique(kf);
        assert(pre.has_entry(to) ==> pre.owned@[kt].who == to);
        // the forward indexes still point at each token's slot and position
        assert forall|t: int| 0 <= t < self.tokens@.len() implies {
            &&& (#[trigger] self.slot@[t]) < self.owned@.len()
            &&& self.pos@[t] < self.owned@[self.slot@[t] as int].toks@.len()
            &&& self.owned@[self.slot@[t] as int].toks@[self.pos@[t] as int] == t
        } by {
            assert(pre.slot@[t] < pre.owned@.len() && pre.pos@[t]
                < pre.owned@[pre.slot@[t] as int].toks@.len() && pre.owned@[pre.slot@[t] as int].toks@[pre.pos@[t] as int]
                == t);
            let j = pre.slot@[t] as int;
            let q = pre.pos@[t] as int;
            if t == ip {
                assert(self.slot@[t] == k_to && self.pos@[t] == newpos);
                assert(self.owned@[kt].toks@.last() == i);
            } else if p as int != L - 1 && t == lt as int {
                assert(self.slot@[t] == k_from && self.pos@[t] == p);
                assert(self.owned@[kf].toks@[p as int] == mid[p as int]);
                assert(mid[p as int] == lt);
            } else {
                assert(self.slot@[t] == pre.slot@[t] && self.pos@[t] == pre.pos@[t]);
                if j == kf {
                    // t keeps its position below the removed one
                    assert(q != p) by {
                        assert(toks_pre[p as int] == ip);
                    }
                    assert(q != L - 1) by {
                        assert(toks_pre[L - 1] == lt);
                    }
                    assert(mid[q] == toks_pre[q]);
                } else if j == kt {
                    assert(self.owned@[kt].toks@[q] == pre.owned@[kt].toks@[q]);
                } else {
                    assert(self.owned@[j] == pre.owned@[j]);
                }
            }
        }
        // every slot of every owner array names a token that points back at it
        assert forall|k2: int, p2: int|
            0 <= k2 < self.owned@.len() && 0 <= p2 < self.owned@[k2].toks@.len() implies {
            &&& (#[trigger] self.owned@[k2].toks@[p2]) < self.tokens@.len()
            &&& self.slot@[self.owned@[k2].toks@[p2] as int] == k2
            &&& self.pos@[self.owned@[k2].toks@[p2] as int] == p2
        } by {
            let el = self.owned@[k2].toks@[p2] as int;
            if k2 == kf && k2 == kt {
                if p2 == self.owned@[k2].toks@.len() - 1 {
                    assert(el == ip);
                } else {
                    assert(self.owned@[k2].toks@[p2] == mid[p2]);
                    if p as int != L - 1 && p2 == p as int {
                        assert(el == lt);
                    } else {
                        assert(mid[p2] == toks_pre[p2]);
                        assert(pre.slot@[el] == k2 && pre.pos@[el] == p2);
                        assert(el != ip) by {
                            assert(toks_pre[p as int] == ip);
                        }
                        assert(p as int != L - 1 ==> el != lt) by {
                            assert(toks_pre[L - 1] == lt);
                        }
                    }
                }
            } else if k2 == kf {
                assert(self.owned@[k2].toks@ == mid);
                if p as int != L - 1 && p2 == p as int {
                    assert(el == lt);
                } else {
                    assert(mid[p2] == toks_pre[p2]);
                    assert(pre.slot@[el] == k2 && pre.pos@[el] == p2);
                    assert(el != ip) by {
                        assert(toks_pre[p as int] == ip);
                    }
                    assert(p as int != L - 1 ==> el != lt) by {
                        assert(toks_pre[L - 1] == lt);
                    }
                }
            } else if k2 == kt {
                if p2 == self.owned@[k2].toks@.len() - 1 {
                    assert(el == ip);
                } else {
                    assert(pre.has_entry(to));
                    assert(self.owned@[k2].toks@[p2] == pre.owned@[k2].toks@[p2]);
                    assert(pre.slot@[el] == k2 && pre.pos@[el] == p2);
                    assert(el != ip && el != lt as int);
                }
            } else {
                assert(self.owned@[k2] == pre.owned@[k2]);
                assert(pre.slot@[el] == k2 && pre.pos@[el] == p2);
                assert(el != ip && el != lt as int);
            }
        }
        assert(self.wf());
        self.lemma_index_unique(ip);
        self.lemma_entry_unique(kt);
        assert(self.global_ids() =~= pre.global_ids());
        // no token record changed, and only the moved token's owner changed
        assert forall|x: Seq<u8>| (self.has_token(x) <==> pre.has_token(x)) && (pre.has_token(x)
            ==> self.index_of(x) == pre.index_of(x)) by {
            if pre.has_token(x) {
                let ix = pre.index_of(x);
                pre.lemma_index_unique(ix);
                self.lemma_index_unique(ix);
            }
            if self.has_token(x) {
                let ix = self.index_of(x);
                self.lemma_index_unique(ix);
                pre.lemma_index_unique(ix);
            }
        }
        assert forall|x: Seq<u8>| pre.has_token(x) && x != id implies self.owner_of_spec(x)
            == pre.owner_of_spec(x) by {
            let ix = pre.index_of(x);
            pre.lemma_index_unique(ix);
            assert(ix != ip);
            assert(self.slot@[ix] == pre.slot@[ix]);
            let j = pre.slot@[ix] as int;
            assert(pre.slot@[ix] < pre.owned@.len());
            assert(self.owned@[j].who == pre.owned@[j].who);
        }
        // the per-owner arrays change exactly as swap-remove plus append say
        let ids_pre = pre.owned_ids(from);
        assert(ids_pre == toks_pre.map(|q: int, t: usize| pre.tokens@[t as int].id@));
        assert(ids_pre[p as int] == id);
        if k_from == k_to {
            assert(self.owned_ids(from) =~= swap_removed(ids_pre, p as int).push(id)) by {
                assert(self.entry_of(from) == kf) by {
                    self.lemma_entry_unique(kf);
                }
                assert(ids_pre.last() == pre.tokens@[lt as int].id@);
            }
        } else {
            assert(self.owned_ids(from) =~= swap_removed(ids_pre, p as int)) by {
                assert(self.entry_of(from) == kf) by {
                    self.lemma_entry_unique(kf);
                }
                assert(ids_pre.last() == pre.tokens@[lt as int].id@);
            }
            if pre.has_entry(to) {
                pre.lemma_entry_unique(kt);
                assert(self.owned_ids(to) =~= pre.owned_ids(to).push(id));
            } else {
                assert(self.owned_ids(to) =~= pre.owned_ids(to).push(id));
            }
        }
        assert forall|w: u64| w != from && w != to implies self.owned_ids(w) == pre.owned_ids(
            w,
        ) by {
            if pre.has_entry(w) {
                let kw = pre.entry_of(w);
                pre.lemma_entry_unique(kw);
                assert(kw != kf && kw != kt);
                self.lemma_entry_unique(kw);
                assert(self.owned_ids(w) =~= pre.owned_ids(w));
            } else {
                assert(!self.has_entry(w)) by {
                    if self.has_entry(w) {
                        let kw = self.entry_of(w);
                        assert(0 <= kw < pre.owned@.len() && pre.owned@[kw].who == w);
                    }
                }
            }
        }
    }

    /// What a price update changes: the one token's price, and nothing else.
    pub open spec fn repriced(pre: Registry, post: Registry, id: Seq<u8>, new_price: u64) -> bool {
        &&& pre.has_token(id)
        &&& post.total() == pre.total()
        &&& post.global_ids() == pre.global_ids()
        &&& forall|x: Seq<u8>| post.has_token(x) <==> pre.has_token(x)
        &&& forall|x: Seq<u8>|
            pre.has_token(x) ==> {
                &&& post.owner_of_spec(x) == pre.owner_of_spec(x)
                &&& post.dna_of(x) == pre.dna_of(x)
                &&& post.gen_of(x) == pre.gen_of(x)
            }
        &&& post.price_of(id) == new_price
        &&& forall|x: Seq<u8>| pre.has_token(x) && x != id ==> post.price_of(x) == pre.price_of(x)
        &&& forall|w: u64| post.owned_ids(w) == pre.owned_ids(w)
    }

    /// After one token's price field is overwritten, the ledger is well
    /// formed and relates to the previous state as `repriced` says.
    proof fn lemma_price_shape(self, pre: Registry, i: usize, id: Seq<u8>)
        requires
            pre.wf(),
            (i as int) < pre.tokens@.len(),
            pre.tokens@[i as int].id@ == id,
            self.tokens@.len() == pre.tokens@.len(),
            forall|j: int|
                0 <= j < pre.tokens@.len() && j != i as int ==> self.tokens@[j] == pre.tokens@[j],
            self.tokens@[i as int].id@ == pre.tokens@[i as int].id@,
            self.tokens@[i as int].dna@ == pre.tokens@[i as int].dna@,
            self.tokens@[i as int].gen == pre.tokens@[i as int].gen,
            self.slot@ == pre.slot@,
            self.pos@ == pre.pos@,
            self.owned@ == pre.owned@,
        ensures
            self.wf(),
            Self::repriced(pre, self, id, self.tokens@[i as int].price),
    {
        let ip = i as int;
        assert forall|a: int, b: int| 0 <= a < b < self.tokens@.len() implies self.tokens@[a].id@
            != self.tokens@[b].id@ by {
            assert(pre.tokens@[a].id@ != pre.tokens@[b].id@);
            assert(self.tokens@[a].id@ == pre.tokens@[a].id@);
            assert(self.tokens@[b].id@ == pre.tokens@[b].id@);
        }
        assert forall|j: int| 0 <= j < self.tokens@.len() implies (
        #[trigger] self.tokens@[j]).wf() by {
            assert(pre.tokens@[j].wf());
        }
        assert forall|t: int| 0 <= t < self.tokens@.len() implies {
            &&& (#[trigger] self.slot@[t]) < self.owned@.len()
            &&& self.pos@[t] < self.owned@[self.slot@[t] as int].toks@.len()
            &&& self.owned@[self.slot@[t] as int].toks@[self.pos@[t] as int] == t
        } by {
            assert(pre.slot@[t] < pre.owned@.len() && pre.pos@[t]
                < pre.owned@[pre.slot@[t] as int].toks@.len()
                && pre.owned@[pre.slot@[t] as int].toks@[pre.pos@[t] as int] == t);
        }
        assert forall|k: int, p: int|
            0 <= k < self.owned@.len() && 0 <= p < self.owned@[k].toks@.len() implies {
            &&& (#[trigger] self.owned@[k].toks@[p]) < self.tokens@.len()
            &&& self.slot@[self.owned@[k].toks@[p] as int] == k
            &&& self.pos@[self.owned@[k].toks@[p] as int] == p
        } by {
            assert(pre.owned@[k].toks@[p] < pre.tokens@.len()
                && pre.slot@[pre.owned@[k].toks@[p] as int] == k
                && pre.pos@[pre.owned@[k].toks@[p] as int] == p);
        }
        assert(self.wf());
        pre.lemma_index_unique(ip);
        self.lemma_index_unique(ip);
        assert(self.global_ids() =~= pre.global_ids());
        assert forall|x: Seq<u8>| (self.has_token(x) <==> pre.has_token(x)) && (pre.has_token(x)
            ==> self.index_of(x) == pre.index_of(x)) by {
            if pre.has_token(x) {
                let ix = pre.index_of(x);
                pre.lemma_index_unique(ix);
                self.lemma_index_unique(ix);
            }
            if self.has_token(x) {
                let ix = self.index_of(x);
                self.lemma_index_unique(ix);
                pre.lemma_index_unique(ix);
            }
        }
        assert forall|w: u64| self.owned_ids(w) == pre.owned_ids(w) by {
            if pre.has_entry(w) {
                assert(self.owned_ids(w) =~= pre.owned_ids(w));
            }
        }
    }

    /// Set the asking price of a token the caller owns; `0` delists it.
    ///
    /// Fails with `NotFound` when no such token exists and with `NotOwner`
    /// when the caller does not own it; an error leaves the ledger unchanged.
    pub fn set_price(&mut self, sender: u64, id: &Vec<u8>, new_price: u64) -> (r: Result<
        (),
        Error,
    >)
        requires
            old(self).wf(),
        ensures
            final(self).wf(),
            match r {
                Ok(()) => {
                    &&& old(self).owner_of_spec(id@) == sender
                    &&& Self::repriced(*old(self), *final(self), id@, new_price)
                    &&& final(self).events_spec() == old(self).events_spec().push(
                        EventView::PriceSet { who: sender, id: id@, price: new_price },
                    )
                    &&& final(self).nonce_spec() == old(self).nonce_spec()
                },
                Err(e) => {
                    &&& *final(self) == *old(self)
                    &&& (e == Error::NotFound || e == Error::NotOwner)
                    &&& (e == Error::NotFound <==> !old(self).has_token(id@))
                    &&& (e == Error::NotOwner <==> old(self).has_token(id@) && old(
                        self,
                    ).owner_of_spec(id@) != sender)
                },
            },
    {
        let i = match self.find_token(id) {
            None => {
                return Err(Error::NotFound);
            },
            Some(i) => i,
        };
        proof {
            self.lemma_index_unique(i as int);
        }
        let k = self.slot[i];
        if self.owned[k].who != sender {
            return Err(Error::NotOwner);
        }
        let ghost pre = *self;
        self.tokens[i].price = new_price;
        self.events.push(Event::PriceSet(sender, copy_bytes(id), new_price));
        proof {
            self.lemma_price_shape(pre, i, id@);
        }
        Ok(())
    }

    /// Transfer a token the caller owns to another account.
    ///
    /// The same checks and effects as [`Self::transfer_from`], with the
    /// caller as the sending side.
    pub fn transfer(&mut self, sender: u64, to: u64, id: &Vec<u8>) -> (r: Result<(), Error>)
        requires
            old(self).wf(),
        ensures
            final(self).wf(),
            match r {
                Ok(()) => {
                    &&& Self::transferred(*old(self), *final(self), sender, to, id@)
                    &&& old(self).owned_count_spec(to) < u64::MAX
                    &&& final(self).events_spec() == old(self).events_spec().push(
                        EventView::Transferred { from: sender, to, id: id@ },
                    )
                    &&& final(self).nonce_spec() == old(self).nonce_spec()
                },
                Err(e) => {
                    &&& *final(self) == *old(self)
                    &&& (e == Error::NotFound || e == Error::NotOwner || e == Error::Overflow)
                    &&& (e == Error::NotFound <==> !old(self).has_token(id@))
                    &&& (e == Error::NotOwner <==> old(self).has_token(id@) && old(
                        self,
                    ).owner_of_spec(id@) != sender)
                    &&& (e == Error::Overflow <==> old(self).has_token(id@) && old(
                        self,
                    ).owner_of_spec(id@) == sender && old(self).owned_count_spec(to) == u64::MAX)
                },
            },
    {
        self.transfer_from(sender, to, id)
    }

    /// Mint a fresh token for the caller from a host-supplied identifier:
    /// dna equal to the identifier, price `0`, generation `0`. On success the
    /// per-process nonce advances, so the host derives a new identifier next
    /// time.
    ///
    /// Fails with `AlreadyExists` when the identifier is taken and with
    /// `Overflow` when the nonce or a count is at its maximum; an error
    /// leaves the ledger unchanged.
    pub fn create_poke(&mut self, sender: u64, random_hash: Vec<u8>) -> (r: Result<(), Error>)
        requires
            old(self).wf(),
            random_hash@.len() == HASH_LEN,
        ensures
            final(self).wf(),
            match r {
                Ok(()) => {
                    &&& Self::minted(
                        *old(self),
                        *final(self),
                        sender,
                        random_hash@,
                        random_hash@,
                        0,
                        0,
                    )
                    &&& final(self).nonce_spec() == old(self).nonce_spec() + 1
                    &&& final(self).events_spec() == old(self).events_spec().push(
                        EventView::Created { who: sender, id: random_hash@ },
                    )
                },
                Err(e) => {
                    &&& *final(self) == *old(self)
                    &&& (e == Error::AlreadyExists || e == Error::Overflow)
                    &&& (e == Error::AlreadyExists <==> old(self).nonce_spec() != u64::MAX && old(
                        self,
                    ).has_token(random_hash@))
                    &&& (e == Error::Overflow ==> old(self).nonce_spec() == u64::MAX || old(
                        self,
                    ).owned_count_spec(sender) == u64::MAX || old(self).total() == u64::MAX)
                },
            },
    {
        if self.nonce == u64::MAX {
            return Err(Error::Overflow);
        }
        let dna = copy_bytes(&random_hash);
        let p = Poke { id: random_hash, dna, price: 0, gen: 0 };
        match self.mint(sender, p) {
            Err(e) => {
                return Err(e);
            },
            Ok(()) => {},
        }
        self.nonce = self.nonce + 1;
        Ok(())
    }

    /// Breed a new token for the caller from two existing parents: the
    /// host-supplied identifier doubles as the crossover selector, the new
    /// dna takes the second parent's byte wherever the selector byte is even,
    /// and the generation is one more than the deeper parent's.
    ///
    /// Fails with `NotFound` when either parent is missing, `AlreadyExists`
    /// when the identifier is taken, and `Overflow` when the deeper parent's
    /// generation, the nonce or a count is at its maximum; an error leaves
    /// the ledger unchanged.
    pub fn breed_poke(
        &mut self,
        sender: u64,
        id1: &Vec<u8>,
        id2: &Vec<u8>,
        random_hash: Vec<u8>,
    ) -> (r: Result<(), Error>)
        requires
            old(self).wf(),
            random_hash@.len() == HASH_LEN,
        ensures
            final(self).wf(),
            match r {
                Ok(()) => ({
                    let g1 = old(self).gen_of(id1@);
                    let g2 = old(self).gen_of(id2@);
                    let deeper = if g1 >= g2 {
                        g1
                    } else {
                        g2
                    };
                    &&& old(self).has_token(id1@)
                    &&& old(self).has_token(id2@)
                    &&& deeper < u64::MAX
                    &&& Self::minted(
                        *old(self),
                        *final(self),
                        sender,
                        random_hash@,
                        crossover_spec(old(self).dna_of(id1@), old(self).dna_of(id2@), random_hash@),
                        0,
                        (deeper + 1) as u64,
                    )
                    &&& final(self).nonce_spec() == old(self).nonce_spec() + 1
                    &&& final(self).events_spec() == old(self).events_spec().push(
                        EventView::Created { who: sender, id: random_hash@ },
                    )
                }),
                Err(e) => ({
                    let both = old(self).has_token(id1@) && old(self).has_token(id2@);
                    let g1 = old(self).gen_of(id1@);
                    let g2 = old(self).gen_of(id2@);
                    let deeper = if g1 >= g2 {
                        g1
                    } else {
                        g2
                    };
                    &&& *final(self) == *old(self)
                    &&& (e == Error::NotFound || e == Error::AlreadyExists || e == Error::Overflow)
                    &&& (e == Error::NotFound <==> !both)
                    &&& (e == Error::AlreadyExists <==> both && deeper != u64::MAX && old(
                        self,
                    ).nonce_spec() != u64::MAX && old(self).has_token(random_hash@))
                    &&& (e == Error::Overflow ==> both && (deeper == u64::MAX || old(
                        self,
                    ).nonce_spec() == u64::MAX || old(self).owned_count_spec(sender) == u64::MAX
                        || old(self).total() == u64::MAX))
                }),
            },
    {
        let i1 = match self.find_token(id1) {
            None => {
                return Err(Error::NotFound);
            },
            Some(i) => i,
        };
        let i2 = match self.find_token(id2) {
            None => {
                return Err(Error::NotFound);
            },
            Some(i) => i,
        };
        proof {
            self.lemma_index_unique(i1 as int);
            self.lemma_index_unique(i2 as int);
        }
        let g1 = self.tokens[i1].gen;
        let g2 = self.tokens[i2].gen;
        let deeper = if g1 >= g2 {
            g1
        } else {
            g2
        };
        if deeper == u64::MAX {
            return Err(Error::Overflow);
        }
        if self.nonce == u64::MAX {
            return Err(Error::Overflow);
        }
        let final_dna = crossover(&self.tokens[i1].dna, &self.tokens[i2].dna, &random_hash);
        let p = Poke { id: random_hash, dna: final_dna, price: 0, gen: deeper + 1 };
        match self.mint(sender, p) {
            Err(e) => {
                return Err(e);
            },
            Ok(()) => {},
        }
        self.nonce = self.nonce + 1;
        Ok(())
    }

    /// An account that does not own some existing token holds strictly fewer
    /// tokens than exist in total: its array lists distinct global indexes
    /// and misses at least that token's.
    pub proof fn lemma_count_lt_total(self, who: u64, id: Seq<u8>)
        requires
            self.wf(),
            self.has_token(id),
            self.owner_of_spec(id) != who,
        ensures
            self.owned_count_spec(who) < self.total(),
    {
        let n = self.tokens@.len() as int;
        let ix = self.index_of(id);
        assert(0 <= ix < n && self.tokens@[ix].id@ == id);
        if !self.has_entry(who) {
            assert(self.owned_ids(who).len() == 0);
        } else {
            let k = self.entry_of(who);
            assert(0 <= k < self.owned@.len() && self.owned@[k].who == who);
            assert(self.slot@[ix] < self.owned@.len());
            assert(self.owned@[self.slot@[ix] as int].who != who);
            assert(k != self.slot@[ix] as int);
            let toks = self.owned@[k].toks@;
            let ti = Seq::<int>::new(toks.len(), |q: int| toks[q] as int);
            assert(ti.no_duplicates()) by {
                assert forall|q1: int, q2: int|
                    0 <= q1 < ti.len() && 0 <= q2 < ti.len() && q1 != q2 implies ti[q1]
                    != ti[q2] by {
                    assert(self.pos@[toks[q1] as int] == q1);
                    assert(self.pos@[toks[q2] as int] == q2);
                }
            }
            let rng = set_int_range(0, n).remove(ix);
            assert forall|x: int| ti.to_set().contains(x) implies rng.contains(x) by {
                let q = choose|q: int| 0 <= q < ti.len() && ti[q] == x;
                assert(toks[q] < self.tokens@.len());
                assert(self.slot@[toks[q] as int] == k);
                assert(toks[q] as int != ix);
            }
            ti.unique_seq_to_set();
            lemma_int_range(0, n);
            assert(set_int_range(0, n).contains(ix));
            assert(rng.len() == n - 1);
            lemma_len_subset(ti.to_set(), rng);
            assert(self.owned_ids(who).len() == toks.len());
        }
    }

    /// What a completed sale changes: ownership moves to the buyer exactly as
    /// a transfer does, and the listing is cleared by resetting the price.
    pub open spec fn bought(pre: Registry, post: Registry, buyer: u64, id: Seq<u8>) -> bool {
        let seller = pre.owner_of_spec(id);
        &&& pre.has_token(id)
        &&& seller != buyer
        &&& pre.price_of(id) != 0
        &&& post.total() == pre.total()
        &&& post.global_ids() == pre.global_ids()
        &&& forall|x: Seq<u8>| post.has_token(x) <==> pre.has_token(x)
        &&& forall|x: Seq<u8>|
            pre.has_token(x) ==> post.dna_of(x) == pre.dna_of(x) && post.gen_of(x) == pre.gen_of(
                x,
            )
        &&& post.owner_of_spec(id) == buyer
        &&& forall|x: Seq<u8>|
            pre.has_token(x) && x != id ==> post.owner_of_spec(x) == pre.owner_of_spec(x)
        &&& post.price_of(id) == 0
        &&& forall|x: Seq<u8>|
            pre.has_token(x) && x != id ==> post.price_of(x) == pre.price_of(x)
        &&& ({
            let p = pre.pos_of(id);
            &&& 0 <= p < pre.owned_ids(seller).len()
            &&& pre.owned_ids(seller)[p] == id
            &&& post.owned_ids(seller) == swap_removed(pre.owned_ids(seller), p)
            &&& post.owned_ids(buyer) == pre.owned_ids(buyer).push(id)
        })
        &&& forall|w: u64| w != seller && w != buyer ==> post.owned_ids(w) == pre.owned_ids(w)
    }

    /// Validate a purchase and say what the value provider must move before
    /// the sale may complete. Reads only; the ledger cannot change here.
    ///
    /// Returns the payment (current owner, asking price) exactly when the
    /// token exists, the caller does not own it, it is listed, and its price
    /// is within the caller's maximum; otherwise the matching error.
    pub fn buy_prepare(&self, sender: u64, id: &Vec<u8>, max_price: u64) -> (r: Result<
        Payment,
        Error,
    >)
        requires
            self.wf(),
        ensures
            match r {
                Ok(pay) => {
                    &&& self.has_token(id@)
                    &&& self.owner_of_spec(id@) != sender
                    &&& self.price_of(id@) != 0
                    &&& self.price_of(id@) <= max_price
                    &&& pay.seller == self.owner_of_spec(id@)
                    &&& pay.amount == self.price_of(id@)
                },
                Err(e) => {
                    &&& (e == Error::NotFound || e == Error::SelfTrade || e == Error::NotForSale
                        || e == Error::PriceExceeded)
                    &&& (e == Error::NotFound <==> !self.has_token(id@))
                    &&& (e == Error::SelfTrade <==> self.has_token(id@) && self.owner_of_spec(id@)
                        == sender)
                    &&& (e == Error::NotForSale <==> self.has_token(id@) && self.owner_of_spec(id@)
                        != sender && self.price_of(id@) == 0)
                    &&& (e == Error::PriceExceeded <==> self.has_token(id@) && self.owner_of_spec(
                        id@,
                    ) != sender && self.price_of(id@) != 0 && self.price_of(id@) > max_price)
                },
            },
    {
        let i = match self.find_token(id) {
            None => {
                return Err(Error::NotFound);
            },
            Some(i) => i,
        };
        proof {
            self.lemma_index_unique(i as int);
        }
        let k = self.slot[i];
        let owner = self.owned[k].who;
        if owner == sender {
            return Err(Error::SelfTrade);
        }
        let price = self.tokens[i].price;
        if price == 0 {
            return Err(Error::NotForSale);
        }
        if price > max_price {
            return Err(Error::PriceExceeded);
        }
        Ok(Payment { seller: owner, amount: price })
    }

    /// Complete a purchase after the value provider has moved the funds:
    /// transfer the token to the buyer, clear the listing, publish the sale.
    /// The checks of [`Self::buy_prepare`] are re-applied, so on its own this
    /// call still refuses anything a prepared sale would have refused.
    pub fn buy_complete(&mut self, sender: u64, id: &Vec<u8>, max_price: u64) -> (r: Result<
        (),
        Error,
    >)
        requires
            old(self).wf(),
        ensures
            final(self).wf(),
            match r {
                Ok(()) => ({
                    let seller = old(self).owner_of_spec(id@);
                    let price = old(self).price_of(id@);
                    &&& price <= max_price
                    &&& Self::bought(*old(self), *final(self), sender, id@)
                    &&& final(self).events_spec() == old(self).events_spec().push(
                        EventView::Transferred { from: seller, to: sender, id: id@ },
                    ).push(EventView::Bought { buyer: sender, seller, id: id@, price })
                    &&& final(self).nonce_spec() == old(self).nonce_spec()
                }),
                Err(e) => {
                    &&& *final(self) == *old(self)
                    &&& (e == Error::NotFound || e == Error::SelfTrade || e == Error::NotForSale
                        || e == Error::PriceExceeded)
                    &&& (e == Error::NotFound <==> !old(self).has_token(id@))
                    &&& (e == Error::SelfTrade <==> old(self).has_token(id@) && old(
                        self,
                    ).owner_of_spec(id@) == sender)
                    &&& (e == Error::NotForSale <==> old(self).has_token(id@) && old(
                        self,
                    ).owner_of_spec(id@) != sender && old(self).price_of(id@) == 0)
                    &&& (e == Error::PriceExceeded <==> old(self).has_token(id@) && old(
                        self,
                    ).owner_of_spec(id@) != sender && old(self).price_of(id@) != 0 && old(
                        self,
                    ).price_of(id@) > max_price)
                },
            },
    {
        let i = match self.find_token(id) {
            None => {
                return Err(Error::NotFound);
            },
            Some(i) => i,
        };
        proof {
            self.lemma_index_unique(i as int);
        }
        let k = self.slot[i];
        let owner = self.owned[k].who;
        if owner == sender {
            return Err(Error::SelfTrade);
        }
        let price = self.tokens[i].price;
        if price == 0 {
            return Err(Error::NotForSale);
        }
        if price > max_price {
            return Err(Error::PriceExceeded);
        }
        let ghost pre = *self;
        let tot = self.tokens.len();
        proof {
            pre.lemma_count_lt_total(sender, id@);
            assert(pre.owned_count_spec(sender) < tot as nat);
            assert(pre.owned_count_spec(sender) != u64::MAX);
        }
        let res = self.transfer_from(owner, sender, id);
        if res.is_err() {
            // unreachable: the seller owns the token and the buyer's count
            // is below every representable bound
            proof {
                assert(false);
            }
            return Err(Error::NotFound);
        }
        let ghost mid = *self;
        self.tokens[i].price = 0;
        let ghost repriced_state = *self;
        self.events.push(Event::Bought(sender, owner, copy_bytes(id), price));
        proof {
            assert(mid.tokens@[i as int].id@ == id@) by {
                assert(mid.global_ids()[i as int] == pre.global_ids()[i as int]);
            }
            assert(repriced_state.tokens@[i as int].price == 0);
            mid.lemma_index_unique(i as int);
            repriced_state.lemma_price_shape(mid, i, id@);
            assert(Self::bought(pre, *self, sender, id@));
        }
        Ok(())
    }

    /// The accounts that have an entry, in the order the entries were made.
    pub closed spec fn owners(self) -> Seq<u64> {
        self.owned@.map(|k: int, e: OwnerEntry| e.who)
    }

    /// The sum of the listed accounts' owned counts.
    pub open spec fn sum_counts_over(self, os: Seq<u64>) -> nat
        decreases os.len(),
    {
        if os.len() == 0 {
            0
        } else {
            self.sum_counts_over(os.drop_last()) + self.owned_count_spec(os.last())
        }
    }

    /// Law (registry consistency): an existing token occupies exactly one
    /// position in the global registry and exactly one position in its
    /// owner's registry, and the recorded position matches.
    pub proof fn lemma_registry_consistency(self, id: Seq<u8>)
        requires
            self.wf(),
            self.has_token(id),
        ensures
            ({
                let w = self.owner_of_spec(id);
                let p = self.pos_of(id);
                let n = self.index_of(id);
                &&& 0 <= n < self.global_ids().len() && self.global_ids()[n] == id
                &&& forall|m: int|
                    0 <= m < self.global_ids().len() && self.global_ids()[m] == id ==> m == n
                &&& 0 <= p < self.owned_ids(w).len() && self.owned_ids(w)[p] == id
                &&& forall|q: int|
                    0 <= q < self.owned_ids(w).len() && self.owned_ids(w)[q] == id ==> q == p
            }),
    {
        let ix = self.index_of(id);
        assert(0 <= ix < self.tokens@.len() && self.tokens@[ix].id@ == id);
        assert forall|m: int|
            0 <= m < self.global_ids().len() && self.global_ids()[m] == id implies m == ix by {
            self.lemma_index_unique(m);
        }
        let k = self.slot@[ix] as int;
        self.lemma_entry_unique(k);
        let w = self.owner_of_spec(id);
        let toks = self.owned@[k].toks@;
        assert(self.owned_ids(w) == ids_of(toks, self.tokens@));
        assert(self.owned_ids(w)[self.pos@[ix] as int] == id);
        assert forall|q: int|
            0 <= q < self.owned_ids(w).len() && self.owned_ids(w)[q] == id implies q
            == self.pos_of(id) by {
            assert(self.tokens@[toks[q] as int].id@ == id);
            self.lemma_index_unique(toks[q] as int);
            assert(self.pos@[toks[q] as int] == q);
        }
    }

    /// No identifier repeats in the global registry.
    pub proof fn lemma_global_ids_distinct(self)
        requires
            self.wf(),
        ensures
            self.global_ids().no_duplicates(),
    {
    }

    /// No identifier repeats in an owner's registry.
    pub proof fn lemma_owned_ids_distinct(self, w: u64)
        requires
            self.wf(),
        ensures
            self.owned_ids(w).no_duplicates(),
    {
        if self.has_entry(w) {
            let k = self.entry_of(w);
            assert(0 <= k < self.owned@.len() && self.owned@[k].who == w);
            let toks = self.owned@[k].toks@;
            let oids = self.owned_ids(w);
            assert forall|q1: int, q2: int|
                0 <= q1 < oids.len() && 0 <= q2 < oids.len() && q1 != q2 implies oids[q1]
                != oids[q2] by {
                assert(self.pos@[toks[q1] as int] == q1);
                assert(self.pos@[toks[q2] as int] == q2);
                assert(toks[q1] != toks[q2]);
                self.lemma_index_unique(toks[q1] as int);
                self.lemma_index_unique(toks[q2] as int);
            }
        }
    }

    /// Law (count accuracy): the global count equals the number of distinct
    /// registered identifiers, and an account's count equals the number of
    /// tokens it currently owns.
    pub proof fn lemma_count_accuracy(self, w: u64)
        requires
            self.wf(),
        ensures
            self.total() == Set::new(|x: Seq<u8>| self.has_token(x)).len(),
            self.owned_count_spec(w) == Set::new(
                |x: Seq<u8>| self.has_token(x) && self.owner_of_spec(x) == w,
            ).len(),
    {
        let gids = self.global_ids();
        self.lemma_global_ids_distinct();
        gids.unique_seq_to_set();
        assert(gids.to_set() =~= Set::new(|x: Seq<u8>| self.has_token(x))) by {
            assert forall|x: Seq<u8>| #[trigger] self.has_token(x) implies gids.to_set().contains(
                x,
            ) by {
                let ix = self.index_of(x);
                assert(gids[ix] == x);
            }
        }
        let oids = self.owned_ids(w);
        self.lemma_owned_ids_distinct(w);
        oids.unique_seq_to_set();
        let owned_set = Set::new(|x: Seq<u8>| self.has_token(x) && self.owner_of_spec(x) == w);
        assert(oids.to_set() =~= owned_set) by {
            assert forall|x: Seq<u8>| oids.to_set().contains(x) implies owned_set.contains(x) by {
                let q = choose|q: int| 0 <= q < oids.len() && oids[q] == x;
                let k = self.entry_of(w);
                let t = self.owned@[k].toks@[q] as int;
                assert(self.tokens@[t].id@ == x);
                self.lemma_index_unique(t);
                assert(self.slot@[t] == k);
            }
            assert forall|x: Seq<u8>| owned_set.contains(x) implies oids.to_set().contains(x) by {
                let ix = self.index_of(x);
                assert(0 <= ix < self.tokens@.len() && self.tokens@[ix].id@ == x);
                let k2 = self.slot@[ix] as int;
                self.lemma_entry_unique(k2);
                assert(k2 == self.entry_of(w));
                assert(oids[self.pos@[ix] as int] == x);
            }
        }
    }

    /// Prefix step for the partition law: the first `k` owner entries hold
    /// exactly the tokens whose slot is below `k`, each exactly once.
    proof fn lemma_partition_prefix(self, k: int)
        requires
            self.wf(),
            0 <= k <= self.owned@.len(),
        ensures
            idx_set(self.owned@.take(k)).finite(),
            idx_set(self.owned@.take(k)).len() == sum_of(self.owned@.take(k)),
            sum_of(self.owned@.take(k)) == self.sum_counts_over(self.owners().take(k)),
            forall|x: int|
                idx_set(self.owned@.take(k)).contains(x) <==> (0 <= x < self.tokens@.len() && (
                self.slot@[x] as int) < k),
        decreases k,
    {
        if k == 0 {
            assert(self.owned@.take(0) =~= Seq::<OwnerEntry>::empty());
            assert(self.owners().take(0) =~= Seq::<u64>::empty());
        } else {
            self.lemma_partition_prefix(k - 1);
            let pfx = self.owned@.take(k);
            assert(pfx.drop_last() =~= self.owned@.take(k - 1));
            assert(pfx.last() == self.owned@[k - 1]);
            let e = self.owned@[k - 1];
            let ti = Seq::<int>::new(e.toks@.len(), |q: int| e.toks@[q] as int);
            assert(ti.no_duplicates()) by {
                assert forall|q1: int, q2: int|
                    0 <= q1 < ti.len() && 0 <= q2 < ti.len() && q1 != q2 implies ti[q1]
                    != ti[q2] by {
                    assert(self.pos@[e.toks@[q1] as int] == q1);
                    assert(self.pos@[e.toks@[q2] as int] == q2);
                }
            }
            ti.unique_seq_to_set();
            assert forall|x: int| entry_idx_set(e).contains(x) implies (0 <= x
                < self.tokens@.len() && self.slot@[x] as int == k - 1) by {
                let q = choose|q: int| 0 <= q < ti.len() && ti[q] == x;
                assert(e.toks@[q] < self.tokens@.len());
                assert(self.slot@[e.toks@[q] as int] == k - 1);
            }
            assert forall|x: int|
                0 <= x < self.tokens@.len() && self.slot@[x] as int == k - 1 implies entry_idx_set(
                e,
            ).contains(x) by {
                assert(self.pos@[x] < e.toks@.len() && e.toks@[self.pos@[x] as int] == x);
                assert(ti[self.pos@[x] as int] == x);
            }
            assert(idx_set(self.owned@.take(k - 1)).intersect(entry_idx_set(e)) =~= Set::<
                int,
            >::empty());
            lemma_disjoint_union_len(idx_set(self.owned@.take(k - 1)), entry_idx_set(e));
            assert(idx_set(pfx) == idx_set(self.owned@.take(k - 1)).union(entry_idx_set(e)));
            // the owner list walks the same entries
            assert(self.owners().take(k).drop_last() =~= self.owners().take(k - 1));
            assert(self.owners().take(k).last() == e.who);
            self.lemma_entry_unique(k - 1);
            assert(self.owned_count_spec(e.who) == e.toks@.len());
        }
    }

    /// Law (count partition): the owner list holds each account at most
    /// once, every account with a token is on it, and the owned counts over
    /// the list sum to the global count: no token is lost or counted twice.
    pub proof fn lemma_counts_partition(self)
        requires
            self.wf(),
        ensures
            self.owners().no_duplicates(),
            forall|w: u64| self.owned_count_spec(w) != 0 ==> self.owners().contains(w),
            self.sum_counts_over(self.owners()) == self.total(),
    {
        let n = self.owned@.len() as int;
        self.lemma_partition_prefix(n);
        assert(self.owned@.take(n) =~= self.owned@);
        assert(self.owners().take(n) =~= self.owners());
        assert(idx_set(self.owned@) =~= set_int_range(0, self.tokens@.len() as int)) by {
            assert forall|x: int| 0 <= x < self.tokens@.len() implies (self.slot@[x] as int)
                < n by {
                assert(self.slot@[x] < self.owned@.len());
            }
        }
        lemma_int_range(0, self.tokens@.len() as int);
        assert forall|w: u64| self.owned_count_spec(w) != 0 implies self.owners().contains(w) by {
            assert(self.has_entry(w));
            let k = self.entry_of(w);
            assert(self.owners()[k] == w);
        }
    }

    /// Every notice published so far, oldest first.
    pub fn events(&self) -> (r: &Vec<Event>)
        ensures
            events_view(r@) == self.events_spec(),
    {
        &self.events
    }
}

} // verus!
