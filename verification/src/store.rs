//! The tokens of one chain, indexed so that queries touch few of them.
//!
//! Tokens are held in ascending `token.id` order, so a token's position is a dense `u32` index.
//! Filter indexes are bitmaps over these positions. A token that is written before its database
//! id is known is appended; the row that brings the id moves it only if it does not fit where it
//! stands. To put a token between others touches those behind it, which are few as long as rows
//! come in the order of their ids.

use crate::address_index::AddressIndex;
use crate::bitmap::{bitmap_rest, bitmap_set, common, strictly_increasing};
use crate::model::{
    ascending_ids, lemma_entry, lemma_place, lemma_place_unique, lemma_position, lemma_released,
    lemma_upsert_row, lemma_upsert_wf, lemma_without, place_of, StoreView, MAX_POSITIONS,
    NEVER_TRADED,
};
use crate::positions::{
    ascending, lemma_all_positions, lemma_ascending_unique, lemma_positions_where, lemma_positions_where_filter,
    lemma_positions_where_same, positions_where, Positions,
};
use crate::quality_index::QualityIndex;
use crate::query::{
    at_least_zero, lemma_page_push, lemma_page_unlimited, Page, TokenQuery, WithTotal,
};
use crate::timestamp::Timestamp;
use crate::token::{Address, Token, TokenView};
use roaring::RoaringBitmap;
use std::sync::Arc;
use vstd::prelude::*;

verus! {

/// The tokens of one chain.
pub struct ChainTokenStore {
    /// All tokens of the chain in ascending `token.id` order. A token whose id is not known yet
    /// was appended, and the rows of other tokens do not move it among those that are there.
    tokens: Vec<Arc<Token>>,
    /// Token address -> position in `tokens`.
    idx_by_address: AddressIndex,
    /// Quality value -> positions of tokens with that quality.
    quality_index: QualityIndex,
    /// Last traded timestamp (unix micros) per position, `NEVER_TRADED` if none.
    last_traded: Vec<i64>,
    /// `token.id` per position, if known.
    ids: Vec<Option<i64>>,
}

/// The addresses of tokens, by position.
spec fn addresses(tokens: Seq<TokenView>) -> Seq<Seq<u8>> {
    tokens.map_values(|t: TokenView| t.address)
}

/// The qualities of tokens, by position.
spec fn qualities(tokens: Seq<TokenView>) -> Seq<u32> {
    tokens.map_values(|t: TokenView| t.quality)
}

/// `tail` is the tokens of `whole` from position `p` on, the last one first, with their
/// last-traded values and database ids.
spec fn is_tail(whole: StoreView, p: int, tail: Seq<(Arc<Token>, i64, Option<i64>)>) -> bool {
    &&& tail.len() == whole.tokens.len() - p
    &&& forall|i: int|
        #![trigger tail[i]]
        0 <= i < tail.len() ==> {
            let q = whole.tokens.len() - 1 - i;
            &&& (*tail[i].0)@ == whole.tokens[q]
            &&& tail[i].1 == whole.last_traded[q]
            &&& tail[i].2 == whole.ids[q]
        }
}

/// The tokens in a vector.
pub open spec fn token_views(tokens: Seq<Token>) -> Seq<TokenView> {
    tokens.map_values(|t: Token| t@)
}

impl View for ChainTokenStore {
    type V = StoreView;

    closed spec fn view(&self) -> StoreView {
        StoreView {
            tokens: self.tokens@.map_values(|t: Arc<Token>| (*t)@),
            last_traded: self.last_traded@,
            ids: self.ids@,
        }
    }
}

impl ChainTokenStore {
    /// The indexes agree with the tokens, and every token has a position.
    spec fn indexed(self) -> bool {
        &&& self@.aligned()
        &&& self.tokens@.len() <= MAX_POSITIONS
        &&& self.idx_by_address.covers(addresses(self@.tokens))
        &&& self.quality_index.covers(qualities(self@.tokens))
    }

    /// The indexes agree with the tokens, no two tokens share an address, the tokens stand in the
    /// order of their database ids, and every token has a position.
    pub closed spec fn wf(self) -> bool {
        &&& self@.wf()
        &&& self.indexed()
    }

    /// What well-formedness says of the tokens themselves.
    pub proof fn lemma_view_wf(&self)
        requires
            self.wf(),
        ensures
            self@.wf(),
            self@.tokens.len() <= MAX_POSITIONS,
    {
    }

    /// A store without tokens.
    pub fn new() -> (store: ChainTokenStore)
        ensures
            store.wf(),
            store@ == StoreView::empty(),
    {
        let store = ChainTokenStore {
            tokens: Vec::new(),
            idx_by_address: AddressIndex::new(),
            quality_index: QualityIndex::new(),
            last_traded: Vec::new(),
            ids: Vec::new(),
        };
        assert(store@.tokens =~= Seq::empty());
        assert(addresses(store@.tokens) =~= Seq::empty());
        assert(qualities(store@.tokens) =~= Seq::empty());
        store
    }

    /// The number of tokens.
    pub fn len(&self) -> (len: usize)
        ensures
            len == self@.tokens.len(),
    {
        self.tokens.len()
    }

    /// The position of the token with this address.
    fn position(&self, address: &Address) -> (position: Option<u32>)
        requires
            self.wf(),
        ensures
            position matches Some(p) ==> self@.holds(address@, p as int),
            position is None ==> !self@.has(address@),
    {
        let ghost listed = addresses(self@.tokens);
        match self.idx_by_address.candidates(address) {
            Some(candidates) => {
                let ghost digest = crate::token::digest_of(address@);
                let mut i: usize = 0;
                while i < candidates.len()
                    invariant
                        i <= candidates@.len(),
                        self.wf(),
                        listed == addresses(self@.tokens),
                        candidates@ == self.idx_by_address.entry(digest),
                        digest == crate::token::digest_of(address@),
                        forall|j: int| 0 <= j < i ==> !self@.holds(address@, candidates@[j] as int),
                    decreases candidates@.len() - i,
                {
                    let p: u32 = candidates[i];
                    assert(self.idx_by_address.entry(digest)[i as int] < listed.len());
                    if self.tokens[p as usize].address.same(address) {
                        return Some(p);
                    }
                    i += 1;
                }
                assert forall|p: int| !self@.holds(address@, p) by {
                    if self@.holds(address@, p) {
                        assert(listed[p] == address@);
                        assert(self.idx_by_address.entry(digest).contains(p as u32));
                        let j = choose|j: int|
                            0 <= j < candidates@.len() && candidates@[j] == p as u32;
                        assert(!self@.holds(address@, candidates@[j] as int));
                    }
                }
                None
            },
            None => {
                assert forall|p: int| !self@.holds(address@, p) by {
                    if self@.holds(address@, p) {
                        assert(listed[p] == address@);
                    }
                }
                None
            },
        }
    }

    /// Appends a token.
    fn push(&mut self, token: Arc<Token>, traded: i64, id: Option<i64>)
        requires
            old(self).indexed(),
            old(self)@.tokens.len() < MAX_POSITIONS,
        ensures
            final(self).indexed(),
            final(self)@.tokens == old(self)@.tokens.push((*token)@),
            final(self)@.last_traded == old(self)@.last_traded.push(traded),
            final(self)@.ids == old(self)@.ids.push(id),
    {
        let ghost written = (*token)@;
        let position: u32 = self.tokens.len() as u32;
        self.idx_by_address.push(&token.address, position);
        self.quality_index.push(token.quality, position);
        self.tokens.push(token);
        self.last_traded.push(traded);
        self.ids.push(id);
        proof {
            let before = old(self)@.tokens;
            assert(self@.tokens =~= before.push(written));
            assert(addresses(self@.tokens) =~= addresses(before).push(written.address));
            assert(qualities(self@.tokens) =~= qualities(before).push(written.quality));
        }
    }

    /// Takes the last token off.
    fn pop(&mut self) -> (last: (Arc<Token>, i64, Option<i64>))
        requires
            old(self).indexed(),
            old(self)@.tokens.len() > 0,
        ensures
            final(self).indexed(),
            final(self)@.tokens == old(self)@.tokens.drop_last(),
            final(self)@.last_traded == old(self)@.last_traded.drop_last(),
            final(self)@.ids == old(self)@.ids.drop_last(),
            (*last.0)@ == old(self)@.tokens.last(),
            last.1 == old(self)@.last_traded.last(),
            last.2 == old(self)@.ids.last(),
    {
        let token = self.tokens.pop().unwrap();
        let traded: i64 = self.last_traded.pop().unwrap();
        let id: Option<i64> = self.ids.pop().unwrap();
        let position: u32 = self.tokens.len() as u32;
        proof {
            let before = old(self)@.tokens;
            assert(self@.tokens =~= before.drop_last());
            assert((*token)@ == before.last());
            assert(addresses(before) =~= addresses(self@.tokens).push(before.last().address));
            assert(qualities(before) =~= qualities(self@.tokens).push(before.last().quality));
        }
        let ghost rest = self@.tokens;
        self.idx_by_address.pop(&token.address);
        self.quality_index.pop(token.quality, position);
        assert(self@.tokens =~= rest);
        (token, traded, id)
    }

    /// Takes off the tokens from position `p` on, the last one first.
    fn split_off(&mut self, p: usize) -> (tail: Vec<(Arc<Token>, i64, Option<i64>)>)
        requires
            old(self).indexed(),
            p <= old(self)@.tokens.len(),
        ensures
            final(self).indexed(),
            final(self)@.tokens == old(self)@.tokens.take(p as int),
            final(self)@.last_traded == old(self)@.last_traded.take(p as int),
            final(self)@.ids == old(self)@.ids.take(p as int),
            is_tail(old(self)@, p as int, tail@),
    {
        let ghost before = self@;
        let mut tail: Vec<(Arc<Token>, i64, Option<i64>)> = Vec::new();
        proof {
            assert(before.tokens.take(before.tokens.len() as int) =~= before.tokens);
            assert(before.last_traded.take(before.tokens.len() as int) =~= before.last_traded);
            assert(before.ids.take(before.tokens.len() as int) =~= before.ids);
        }
        while self.tokens.len() > p
            invariant
                self.indexed(),
                before.aligned(),
                p <= self@.tokens.len() <= before.tokens.len(),
                self.tokens@.len() == self@.tokens.len(),
                self@.tokens == before.tokens.take(self.tokens@.len() as int),
                self@.last_traded == before.last_traded.take(self.tokens@.len() as int),
                self@.ids == before.ids.take(self.tokens@.len() as int),
                is_tail(before, self.tokens@.len() as int, tail@),
            decreases self@.tokens.len(),
        {
            let ghost n = self.tokens@.len() as int;
            let last = self.pop();
            proof {
                assert(before.tokens.take(n).drop_last() =~= before.tokens.take(n - 1));
                assert(before.last_traded.take(n).drop_last() =~= before.last_traded.take(n - 1));
                assert(before.ids.take(n).drop_last() =~= before.ids.take(n - 1));
                assert(self.tokens@.len() == self@.tokens.len());
            }
            tail.push(last);
        }
        tail
    }

    /// Puts tokens back that were taken off.
    fn put_back(&mut self, tail: Vec<(Arc<Token>, i64, Option<i64>)>, Ghost(whole): Ghost<StoreView>, Ghost(p): Ghost<int>)
        requires
            old(self).indexed(),
            old(self)@.tokens.len() + tail@.len() <= MAX_POSITIONS,
            whole.aligned(),
            0 <= p <= whole.tokens.len(),
            is_tail(whole, p, tail@),
        ensures
            final(self).indexed(),
            final(self)@.tokens == old(self)@.tokens + whole.tokens.skip(p),
            final(self)@.last_traded == old(self)@.last_traded + whole.last_traded.skip(p),
            final(self)@.ids == old(self)@.ids + whole.ids.skip(p),
    {
        let ghost base = self@;
        let ghost n = whole.tokens.len() as int;
        let mut left = tail;
        let ghost mut done: int = p;
        proof {
            assert(base.tokens + whole.tokens.subrange(p, p) =~= base.tokens);
            assert(base.last_traded + whole.last_traded.subrange(p, p) =~= base.last_traded);
            assert(base.ids + whole.ids.subrange(p, p) =~= base.ids);
        }
        while left.len() > 0
            invariant
                self.indexed(),
                whole.aligned(),
                n == whole.tokens.len(),
                0 <= p <= done <= n,
                base.tokens.len() + n - p <= MAX_POSITIONS,
                is_tail(whole, done, left@),
                self@.tokens == base.tokens + whole.tokens.subrange(p, done),
                self@.last_traded == base.last_traded + whole.last_traded.subrange(p, done),
                self@.ids == base.ids + whole.ids.subrange(p, done),
            decreases left@.len(),
        {
            let ghost before = left@;
            let (token, traded, id) = left.pop().unwrap();
            proof {
                assert(before[before.len() - 1] == (token, traded, id));
                assert(whole.tokens.subrange(p, done + 1) =~= whole.tokens.subrange(p, done).push(
                    whole.tokens[done],
                ));
                assert(whole.last_traded.subrange(p, done + 1) =~= whole.last_traded.subrange(
                    p,
                    done,
                ).push(whole.last_traded[done]));
                assert(whole.ids.subrange(p, done + 1) =~= whole.ids.subrange(p, done).push(
                    whole.ids[done],
                ));
            }
            self.push(token, traded, id);
            proof {
                done = done + 1;
                assert(self@.tokens =~= base.tokens + whole.tokens.subrange(p, done));
                assert(self@.last_traded =~= base.last_traded + whole.last_traded.subrange(
                    p,
                    done,
                ));
                assert(self@.ids =~= base.ids + whole.ids.subrange(p, done));
            }
        }
        proof {
            assert(whole.tokens.subrange(p, n) =~= whole.tokens.skip(p));
            assert(whole.last_traded.subrange(p, n) =~= whole.last_traded.skip(p));
            assert(whole.ids.subrange(p, n) =~= whole.ids.skip(p));
        }
    }

    /// Puts a token in at position `p`; those from there on move up.
    fn insert_at(&mut self, p: usize, token: Arc<Token>, traded: i64, id: Option<i64>)
        requires
            old(self).indexed(),
            p <= old(self)@.tokens.len(),
            old(self)@.tokens.len() < MAX_POSITIONS,
        ensures
            final(self).indexed(),
            final(self)@ == old(self)@.with_at(p as int, (*token)@, traded, id),
    {
        let ghost whole = self@;
        let ghost added = (*token)@;
        let tail = self.split_off(p);
        self.push(token, traded, id);
        self.put_back(tail, Ghost(whole), Ghost(p as int));
        assert(self@ =~= whole.with_at(p as int, added, traded, id));
    }

    /// Takes the token at position `p` out; those behind it move down.
    fn remove_at(&mut self, p: usize) -> (removed: (Arc<Token>, i64, Option<i64>))
        requires
            old(self).indexed(),
            p < old(self)@.tokens.len(),
        ensures
            final(self).indexed(),
            final(self)@ == old(self)@.without(p as int),
            (*removed.0)@ == old(self)@.tokens[p as int],
            removed.1 == old(self)@.last_traded[p as int],
            removed.2 == old(self)@.ids[p as int],
    {
        let ghost whole = self@;
        assert(p < self.tokens.len());
        let tail = self.split_off(p + 1);
        let removed = self.pop();
        self.put_back(tail, Ghost(whole), Ghost(p + 1));
        assert(self@ =~= whole.without(p as int));
        removed
    }

    /// Replaces the token at position `idx` by one with the same address.
    fn replace(&mut self, idx: u32, token: Token)
        requires
            old(self).indexed(),
            old(self)@.holds(token@.address, idx as int),
        ensures
            final(self).indexed(),
            final(self)@ == old(self)@.replace(idx as int, token@),
    {
        let ghost written = token@;
        let before: u32 = self.tokens[idx as usize].quality;
        if before != token.quality {
            self.quality_index.update(before, token.quality, idx);
        }
        self.tokens[idx as usize] = Arc::new(token);
        proof {
            let next = old(self)@.replace(idx as int, written);
            assert(self@.tokens =~= next.tokens);
            assert(addresses(next.tokens) =~= addresses(old(self)@.tokens));
            assert(qualities(next.tokens) =~= qualities(old(self)@.tokens).update(
                idx as int,
                written.quality,
            ));
            if before == written.quality {
                assert(qualities(next.tokens) =~= qualities(old(self)@.tokens));
            }
            assert(qualities(old(self)@.tokens)[idx as int] == before);
            assert(self.quality_index.covers(qualities(self@.tokens)));
            assert(self.idx_by_address.covers(addresses(self@.tokens)));
        }
    }

    /// Inserts or updates a token. With `overwrite` false an existing entry is left untouched,
    /// as an insert that does nothing on conflict leaves it.
    pub fn upsert(&mut self, token: Token, overwrite: bool)
        requires
            old(self).wf(),
            old(self)@.upsert(token@, overwrite).tokens.len() <= MAX_POSITIONS,
        ensures
            final(self).wf(),
            final(self)@ == old(self)@.upsert(token@, overwrite),
    {
        proof {
            lemma_upsert_wf(self@, token@, overwrite);
        }
        match self.position(&token.address) {
            Some(idx) => {
                proof {
                    lemma_position(self@, token.address@, idx as int);
                }
                if overwrite {
                    self.replace(idx, token);
                }
            },
            None => {
                self.push(Arc::new(token), NEVER_TRADED, None);
            },
        }
    }

    /// The place of database id `id`: directly before the first token whose known id is not
    /// smaller, or at the end.
    fn place(&self, id: i64) -> (place: usize)
        requires
            self.indexed(),
            self@.ordered(),
        ensures
            place == place_of(self@.ids, id),
    {
        let mut place: usize = self.ids.len();
        let mut i: usize = place;
        while i > 0
            invariant
                i <= place <= self@.ids.len(),
                self@.ordered(),
                place < self@.ids.len() ==> self@.ids[place as int] is Some
                    && self@.ids[place as int]->0 >= id,
                forall|q: int| #![trigger self@.ids[q]] i <= q < place ==> self@.ids[q] is None,
            decreases i,
        {
            if let Some(known) = self.ids[i - 1] {
                if known < id {
                    proof {
                        assert(self@.ids[i - 1] == Some(known));
                        assert forall|q: int|
                            #![trigger self@.ids[q]]
                            0 <= q < place && self@.ids[q] is Some implies self@.ids[q]->0 < id by {
                            if q < i - 1 {
                                assert(self@.ids[q]->0 < self@.ids[i - 1]->0);
                            }
                        }
                        lemma_place_unique(self@.ids, id, place as int);
                    }
                    return place;
                }
                place = i - 1;
            }
            i -= 1;
        }
        proof {
            lemma_place_unique(self@.ids, id, place as int);
        }
        place
    }

    /// The last position before `p` at which the database id is known.
    fn known_before(&self, p: usize) -> (found: Option<usize>)
        requires
            p <= self@.ids.len(),
        ensures
            match found {
                Some(q) => q < p && self@.ids[q as int] is Some && forall|r: int|
                    #![trigger self@.ids[r]]
                    q < r < p ==> self@.ids[r] is None,
                None => forall|r: int| #![trigger self@.ids[r]] 0 <= r < p ==> self@.ids[r] is None,
            },
    {
        let mut i: usize = p;
        while i > 0
            invariant
                i <= p <= self@.ids.len(),
                forall|r: int| #![trigger self@.ids[r]] i <= r < p ==> self@.ids[r] is None,
            decreases i,
        {
            if self.ids[i - 1].is_some() {
                return Some(i - 1);
            }
            i -= 1;
        }
        None
    }

    /// The first position behind `p` at which the database id is known.
    fn known_behind(&self, p: usize) -> (found: Option<usize>)
        requires
            p < self@.ids.len(),
        ensures
            match found {
                Some(q) => p < q < self@.ids.len() && self@.ids[q as int] is Some && forall|r: int|
                    #![trigger self@.ids[r]]
                    p < r < q ==> self@.ids[r] is None,
                None => forall|r: int|
                    #![trigger self@.ids[r]]
                    p < r < self@.ids.len() ==> self@.ids[r] is None,
            },
    {
        assert(p < self.ids.len());
        let mut i: usize = p + 1;
        while i < self.ids.len()
            invariant
                p < i <= self@.ids.len(),
                forall|r: int| #![trigger self@.ids[r]] p < r < i ==> self@.ids[r] is None,
            decreases self@.ids.len() - i,
        {
            if self.ids[i].is_some() {
                return Some(i);
            }
            i += 1;
        }
        None
    }

    /// Whether the known database ids ascend with `id` at position `p`.
    fn can_stand(&self, p: usize, id: i64) -> (ascend: bool)
        requires
            self@.ordered(),
            p < self@.ids.len(),
        ensures
            ascend == ascending_ids(self@.ids.update(p as int, Some(id))),
    {
        let ghost ids = self@.ids;
        let ghost with = ids.update(p as int, Some(id));
        let before = self.known_before(p);
        if let Some(q) = before {
            if let Some(known) = self.ids[q] {
                if known >= id {
                    assert(with[q as int] == Some(known) && with[p as int] == Some(id));
                    return false;
                }
            }
        }
        let behind = self.known_behind(p);
        if let Some(q) = behind {
            if let Some(known) = self.ids[q] {
                if known <= id {
                    assert(with[q as int] == Some(known) && with[p as int] == Some(id));
                    return false;
                }
            }
        }
        assert forall|r: int, t: int|
            #![trigger with[r], with[t]]
            0 <= r < t < with.len() && with[r] is Some && with[t] is Some implies with[r]->0
            < with[t]->0 by {
            if t == p {
                assert(ids[r] is Some);
                let q = before->0 as int;
                assert(r == q || ids[r]->0 < ids[q]->0);
            } else if r == p {
                assert(ids[t] is Some);
                let q = behind->0 as int;
                assert(t == q || ids[q]->0 < ids[t]->0);
            } else {
                assert(ids[r]->0 < ids[t]->0);
            }
        }
        true
    }

    /// Takes database id `id` from the token that has it.
    fn release(&mut self, id: i64)
        requires
            old(self).wf(),
        ensures
            final(self).wf(),
            final(self)@ == old(self)@.released(id),
    {
        let ghost before = self@;
        // Tokens before the place have smaller ids, so the one that has the id stands behind.
        let mut i: usize = self.place(id);
        proof {
            lemma_released(before, id, Seq::empty());
            lemma_place(before.ids, id);
        }
        while i < self.ids.len()
            invariant
                self.indexed(),
                self@.tokens == before.tokens,
                self@.last_traded == before.last_traded,
                self@.ids.len() == before.ids.len(),
                forall|q: int| 0 <= q < i ==> self@.ids[q] == before.released(id).ids[q],
                forall|q: int| i <= q < before.ids.len() ==> self@.ids[q] == before.ids[q],
            decreases self@.ids.len() - i,
        {
            if let Some(known) = self.ids[i] {
                if known == id {
                    self.ids[i] = None;
                    assert(self@.tokens == before.tokens);
                }
            }
            i += 1;
        }
        assert(self@.ids =~= before.released(id).ids);
    }

    /// Inserts or updates the token of the database row `id`. A new token goes to the place of its
    /// id; a known one stays where it is if the known ids then ascend, and moves to the place of
    /// its id otherwise.
    pub fn upsert_row(&mut self, id: i64, token: Token)
        requires
            old(self).wf(),
            old(self)@.upsert_row(id, token@).tokens.len() <= MAX_POSITIONS,
        ensures
            final(self).wf(),
            final(self)@ == old(self)@.upsert_row(id, token@),
    {
        proof {
            lemma_upsert_row(self@, id, token@, token@.address);
            lemma_released(self@, id, token@.address);
        }
        match self.position(&token.address) {
            Some(idx) => {
                proof {
                    lemma_entry(self@, token@.address, idx as int);
                    lemma_without(self@.released(id), idx as int, token@.address);
                }
                let same: bool = match self.ids[idx as usize] {
                    Some(known) => known == id,
                    None => false,
                };
                if same {
                    proof {
                        let free = self@.released(id);
                        assert forall|q: int| 0 <= q < self@.ids.len() && q != idx implies self@.ids[q]
                            != Some(id) by {
                            assert(self@.ids[idx as int] is Some);
                        }
                        assert(free.ids.update(idx as int, Some(id)) =~= self@.ids);
                    }
                    self.replace(idx, token);
                } else {
                    self.release(id);
                    if self.can_stand(idx as usize, id) {
                        self.replace(idx, token);
                        self.ids[idx as usize] = Some(id);
                        assert(self@.tokens == old(self)@.released(id).replace(
                            idx as int,
                            token@,
                        ).tokens);
                    } else {
                        let (_, traded, _) = self.remove_at(idx as usize);
                        let place: usize = self.place(id);
                        proof {
                            lemma_place(self@.ids, id);
                        }
                        self.insert_at(place, Arc::new(token), traded, Some(id));
                    }
                }
            },
            None => {
                self.release(id);
                let place: usize = self.place(id);
                proof {
                    lemma_place(self@.ids, id);
                }
                self.insert_at(place, Arc::new(token), NEVER_TRADED, Some(id));
            },
        }
    }

    /// Notes a trade of the token at `address`. The last-traded time never goes back.
    pub fn update_last_traded(&mut self, address: &Address, ts: Timestamp)
        requires
            old(self).wf(),
        ensures
            final(self).wf(),
            final(self)@ == old(self)@.traded(address@, ts.micros()),
    {
        match self.position(address) {
            Some(idx) => {
                proof {
                    lemma_position(self@, address@, idx as int);
                }
                let micros: i64 = ts.timestamp_micros();
                if self.last_traded[idx as usize] < micros {
                    self.last_traded[idx as usize] = micros;
                    assert(self@.tokens == old(self)@.tokens);
                }
            },
            None => {},
        }
    }

    /// Sets the last-traded time of the token at `address`.
    pub(crate) fn set_last_traded(&mut self, address: &Address, ts: Timestamp)
        requires
            old(self).wf(),
        ensures
            final(self).wf(),
            final(self)@ == old(self)@.set_traded(address@, ts.micros()),
    {
        if let Some(idx) = self.position(address) {
            proof {
                lemma_position(self@, address@, idx as int);
            }
            self.last_traded[idx as usize] = ts.timestamp_micros();
            assert(self@.tokens == old(self)@.tokens);
        }
    }

    /// Combines the address and quality filters into a single bitmap of candidate positions.
    /// `None` means "no filter" (all tokens are candidates).
    fn candidate_bitmap(&self, query: &TokenQuery) -> (candidates: Option<RoaringBitmap>)
        requires
            self.wf(),
        ensures
            candidates is None <==> query.addresses is None && query.quality_range.min is None
                && query.quality_range.max is None,
            candidates matches Some(bitmap) ==> forall|v: u32| #[trigger]
                bitmap_set(bitmap).contains(v) <==> v < self@.tokens.len() && self@.is_candidate(
                    query.filter(),
                    v as int,
                ),
    {
        let by_address: Option<RoaringBitmap> = match &query.addresses {
            Some(addresses) => Some(self.address_bitmap(addresses)),
            None => None,
        };
        if query.quality_range.min.is_none() && query.quality_range.max.is_none() {
            return by_address;
        }
        let by_quality = self.quality_index.in_range(&query.quality_range);
        assert(qualities(self@.tokens).len() == self@.tokens.len());
        match by_address {
            Some(bitmap) => Some(common(bitmap, by_quality)),
            None => Some(by_quality),
        }
    }

    /// The positions of the tokens whose address is listed.
    fn address_bitmap(&self, listed: &Vec<Address>) -> (bitmap: RoaringBitmap)
        requires
            self.wf(),
        ensures
            forall|v: u32| #[trigger]
                bitmap_set(bitmap).contains(v) <==> v < self@.tokens.len() && Seq::new(
                    listed@.len(),
                    |i: int| listed@[i]@,
                ).contains(self@.tokens[v as int].address),
    {
        let ghost wanted = Seq::new(listed@.len(), |i: int| listed@[i]@);
        let mut bitmap = RoaringBitmap::new();
        let mut i: usize = 0;
        while i < listed.len()
            invariant
                i <= listed@.len(),
                self.wf(),
                wanted == Seq::new(listed@.len(), |i: int| listed@[i]@),
                forall|v: u32| #[trigger]
                    bitmap_set(bitmap).contains(v) <==> v < self@.tokens.len() && wanted.take(
                        i as int,
                    ).contains(self@.tokens[v as int].address),
            decreases listed@.len() - i,
        {
            let ghost before = bitmap_set(bitmap);
            let ghost address = wanted[i as int];
            assert(wanted.take(i + 1) =~= wanted.take(i as int).push(address));
            match self.position(&listed[i]) {
                Some(idx) => {
                    bitmap.insert(idx);
                    assert forall|v: u32| #[trigger]
                        bitmap_set(bitmap).contains(v) <==> v < self@.tokens.len() && wanted.take(
                            i + 1,
                        ).contains(self@.tokens[v as int].address) by {
                        assert(before.contains(v) <==> v < self@.tokens.len() && wanted.take(
                            i as int,
                        ).contains(self@.tokens[v as int].address));
                        lemma_contains_push(
                            wanted.take(i as int),
                            address,
                            self@.tokens[v as int].address,
                        );
                    }
                },
                None => {
                    assert forall|v: u32| #[trigger]
                        bitmap_set(bitmap).contains(v) <==> v < self@.tokens.len() && wanted.take(
                            i + 1,
                        ).contains(self@.tokens[v as int].address) by {
                        assert(!self@.holds(address, v as int));
                        lemma_contains_push(
                            wanted.take(i as int),
                            address,
                            self@.tokens[v as int].address,
                        );
                    }
                },
            }
            i += 1;
        }
        assert(wanted.take(listed@.len() as int) =~= wanted);
        bitmap
    }

    /// The tokens at a page of the given positions.
    fn collect_page(&self, positions: Positions, offset: u64, limit: u64) -> (entity: Vec<Token>)
        requires
            self.wf(),
            forall|i: int|
                #![trigger positions.rest()[i]]
                0 <= i < positions.rest().len() ==> 0 <= positions.rest()[i] < self@.tokens.len(),
        ensures
            token_views(entity@) == (Page { offset: offset as nat, limit: Some(limit as nat) }).of(
                self@.at(positions.rest()),
            ),
    {
        let ghost all = positions.rest();
        let ghost page = Page { offset: offset as nat, limit: Some(limit as nat) };
        let mut left = positions;
        let mut entity: Vec<Token> = Vec::new();
        let mut skipped: u64 = 0;
        while skipped < offset
            invariant
                skipped <= offset,
                self.wf(),
                entity@.len() == 0,
                all == positions.rest(),
                skipped <= all.len(),
                left.rest() == all.skip(skipped as int),
                page == (Page { offset: offset as nat, limit: Some(limit as nat) }),
                forall|i: int|
                    #![trigger all[i]]
                    0 <= i < all.len() ==> 0 <= all[i] < self@.tokens.len(),
            decreases offset - skipped,
        {
            match left.next() {
                Some(_) => {
                    assert(all.skip(skipped as int).drop_first() =~= all.skip(skipped + 1));
                    skipped += 1;
                },
                None => {
                    assert(token_views(entity@) =~= page.of(self@.at(all)));
                    return entity;
                },
            }
        }
        assert(token_views(entity@) =~= Seq::empty());
        assert(self@.at(all).skip(offset as int) =~= self@.at(all.skip(offset as int)));
        let mut more: bool = true;
        while more && (entity.len() as u64) < limit
            invariant
                self.wf(),
                offset + entity@.len() <= all.len(),
                entity@.len() <= limit,
                !more ==> left.rest().len() == 0,
                left.rest() == all.skip(offset + entity@.len()),
                token_views(entity@) == self@.at(
                    all.subrange(offset as int, offset + entity@.len()),
                ),
                forall|i: int|
                    #![trigger all[i]]
                    0 <= i < all.len() ==> 0 <= all[i] < self@.tokens.len(),
            decreases all.len() - offset - entity@.len() + if more {
                1int
            } else {
                0int
            },
        {
            let ghost k = offset + entity@.len();
            match left.next() {
                Some(p) => {
                    assert(p == all[k]);
                    assert(all.skip(k).drop_first() =~= all.skip(k + 1));
                    let ghost shown = token_views(entity@);
                    let token = (*self.tokens[p]).clone();
                    let ghost added = token@;
                    entity.push(token);
                    assert(token_views(entity@) =~= shown.push(added));
                    assert(all.subrange(offset as int, k + 1) =~= all.subrange(
                        offset as int,
                        k,
                    ).push(all[k]));
                    assert(self@.at(all.subrange(offset as int, k + 1)) =~= self@.at(
                        all.subrange(offset as int, k),
                    ).push(added));
                },
                None => {
                    more = false;
                },
            }
        }
        assert(self@.at(all.subrange(offset as int, offset + entity@.len())) =~= page.of(
            self@.at(all),
        ));
        entity
    }

    /// Single pass over candidate positions applying the last-traded filter, counting all
    /// matches and collecting the requested page.
    fn paginate_filtered(
        &self,
        positions: Positions,
        threshold: i64,
        offset: u64,
        limit: u64,
    ) -> (result: WithTotal<Vec<Token>>)
        requires
            self.wf(),
            positions.rest().len() <= MAX_POSITIONS,
            forall|i: int|
                #![trigger positions.rest()[i]]
                0 <= i < positions.rest().len() ==> 0 <= positions.rest()[i] < self@.tokens.len(),
        ensures
            ({
                let kept = positions.rest().filter(|p: int| self@.last_traded[p] > threshold);
                &&& result.total == Some(kept.len() as i64)
                &&& token_views(result.entity@) == (Page {
                    offset: offset as nat,
                    limit: Some(limit as nat),
                }).of(self@.at(kept))
            }),
    {
        let ghost all = positions.rest();
        let ghost page = Page { offset: offset as nat, limit: Some(limit as nat) };
        let ghost recent = |p: int| self@.last_traded[p] > threshold;
        let ghost mut walked: int = 0;
        let mut left = positions;
        let mut total: u64 = 0;
        let mut entity: Vec<Token> = Vec::new();
        let mut more: bool = true;
        reveal(Seq::filter);
        assert(all.take(0) =~= Seq::empty());
        assert(self@.at(all.take(0).filter(recent)) =~= Seq::empty());
        assert(page.of(Seq::<TokenView>::empty()) =~= Seq::empty());
        assert(token_views(entity@) =~= Seq::empty());
        while more
            invariant
                self.wf(),
                all == positions.rest(),
                all.len() <= MAX_POSITIONS,
                0 <= walked <= all.len(),
                !more ==> walked == all.len(),
                left.rest() == all.skip(walked),
                recent == (|p: int| self@.last_traded[p] > threshold),
                page == (Page { offset: offset as nat, limit: Some(limit as nat) }),
                total == all.take(walked).filter(recent).len(),
                total <= walked,
                token_views(entity@) == page.of(self@.at(all.take(walked).filter(recent))),
                forall|i: int|
                    #![trigger all[i]]
                    0 <= i < all.len() ==> 0 <= all[i] < self@.tokens.len(),
            decreases all.len() - walked + if more {
                1int
            } else {
                0int
            },
        {
            match left.next() {
                Some(p) => {
                    assert(p == all[walked]);
                    proof {
                        reveal(Seq::filter);
                        let seen = all.take(walked);
                        assert(all.take(walked + 1) =~= seen.push(all[walked]));
                        assert(all.take(walked + 1).drop_last() =~= seen);
                        assert(all.skip(walked).drop_first() =~= all.skip(walked + 1));
                        if recent(p as int) {
                            let kept = seen.filter(recent);
                            assert(self@.at(kept.push(p as int)) =~= self@.at(kept).push(
                                self@.tokens[p as int],
                            ));
                            lemma_page_push(page, self@.at(kept), self@.tokens[p as int]);
                        }
                        walked = walked + 1;
                    }
                    if self.last_traded[p] > threshold {
                        if total >= offset && (entity.len() as u64) < limit {
                            let ghost shown = token_views(entity@);
                            let token = (*self.tokens[p]).clone();
                            let ghost added = token@;
                            entity.push(token);
                            assert(token_views(entity@) =~= shown.push(added));
                        }
                        total += 1;
                    }
                },
                None => {
                    more = false;
                },
            }
        }
        assert(all.take(walked) =~= all);
        WithTotal { entity, total: Some(total as i64) }
    }

    /// Evaluates a query against the store.
    ///
    /// Results are in ascending `token.id` order, as far as the ids are known, and `total` counts
    /// all matches regardless of pagination.
    pub fn query(&self, query: &TokenQuery) -> (result: WithTotal<Vec<Token>>)
        requires
            self.wf(),
            query.wf(),
        ensures
            token_views(result.entity@) == self@.answer(query.filter(), query.page()),
            result.total == Some(self@.matches(query.filter()).len() as i64),
    {
        let ghost filter = query.filter();
        let ghost n = self@.tokens.len();
        let ghost candidate = |p: int| self@.is_candidate(filter, p);
        let ghost selected = |p: int| self@.selects(filter, p);
        let candidates = self.candidate_bitmap(query);
        let (offset, limit): (u64, u64) = match &query.pagination {
            Some(params) => (not_negative(params.offset()), not_negative(params.page_size)),
            None => (0, u64::MAX),
        };
        proof {
            lemma_positions_where(n, candidate);
            lemma_positions_where(n, selected);
            if query.pagination is None {
                lemma_page_unlimited(0, u64::MAX as nat, self@.matches(filter));
            }
        }
        match (candidates, query.last_traded_ts_threshold) {
            // Bitmap cardinality gives the total for free; the page is a plain slice of the
            // candidates.
            (Some(bitmap), None) => {
                let total: u64 = bitmap.len();
                let iter = bitmap.iter();
                proof {
                    lemma_bitmap_positions(bitmap_set(bitmap), bitmap_rest(iter), n, candidate);
                    lemma_positions_where_same(n, candidate, selected);
                }
                let entity = self.collect_page(Positions::Bitmap(iter), offset, limit);
                WithTotal { entity, total: Some(total as i64) }
            },
            (Some(bitmap), Some(threshold)) => {
                let iter = bitmap.iter();
                let micros: i64 = threshold.timestamp_micros();
                proof {
                    lemma_bitmap_positions(bitmap_set(bitmap), bitmap_rest(iter), n, candidate);
                    lemma_positions_where_filter(
                        n,
                        candidate,
                        |p: int| self@.last_traded[p] > micros,
                        selected,
                    );
                }
                self.paginate_filtered(Positions::Bitmap(iter), micros, offset, limit)
            },
            (None, None) => {
                let total: usize = self.tokens.len();
                let positions = Positions::Range { start: 0, end: total };
                proof {
                    lemma_all_positions(n, selected);
                    assert(positions.rest() =~= positions_where(n, selected));
                }
                let entity = self.collect_page(positions, offset, limit);
                WithTotal { entity, total: Some(total as i64) }
            },
            (None, Some(threshold)) => {
                let micros: i64 = threshold.timestamp_micros();
                let positions = Positions::Range { start: 0, end: self.tokens.len() };
                proof {
                    lemma_all_positions(n, candidate);
                    assert(positions.rest() =~= positions_where(n, candidate));
                    lemma_positions_where_filter(
                        n,
                        candidate,
                        |p: int| self@.last_traded[p] > micros,
                        selected,
                    );
                }
                self.paginate_filtered(positions, micros, offset, limit)
            },
        }
    }
}

/// `value`, or zero if it is negative.
fn not_negative(value: i64) -> (number: u64)
    ensures
        number == at_least_zero(value as int),
{
    if value >= 0 {
        value as u64
    } else {
        0
    }
}

/// The values of a bitmap in ascending order are the positions that its membership condition
/// selects.
proof fn lemma_bitmap_positions(
    values: Set<u32>,
    listed: Seq<u32>,
    n: nat,
    keep: spec_fn(int) -> bool,
)
    requires
        n <= MAX_POSITIONS,
        strictly_increasing(listed),
        listed.to_set() == values,
        forall|v: u32| #[trigger] values.contains(v) <==> v < n && keep(v as int),
    ensures
        listed.map_values(|v: u32| v as int) == positions_where(n, keep),
        values.len() == positions_where(n, keep).len(),
{
    let positions = listed.map_values(|v: u32| v as int);
    lemma_positions_where(n, keep);
    listed.unique_seq_to_set();
    assert forall|p: int| positions.contains(p) <==> positions_where(n, keep).contains(p) by {
        if positions.contains(p) {
            let i = choose|i: int| 0 <= i < positions.len() && positions[i] == p;
            assert(listed.to_set().contains(listed[i]));
        }
        if positions_where(n, keep).contains(p) {
            assert(values.contains(p as u32));
            assert(listed.contains(p as u32));
            let i = choose|i: int| 0 <= i < listed.len() && listed[i] == p as u32;
            assert(positions[i] == p);
        }
    }
    assert(ascending(positions));
    lemma_ascending_unique(positions, positions_where(n, keep));
}

/// What a sequence contains once an element was put at its end.
pub(crate) proof fn lemma_contains_push<T>(s: Seq<T>, added: T, x: T)
    ensures
        s.push(added).contains(x) <==> s.contains(x) || x == added,
{
    let more = s.push(added);
    if s.contains(x) {
        let i = choose|i: int| 0 <= i < s.len() && s[i] == x;
        assert(more[i] == x);
    }
    if x == added {
        assert(more[s.len() as int] == x);
    }
    if more.contains(x) && x != added {
        let i = choose|i: int| 0 <= i < more.len() && more[i] == x;
        assert(s[i] == x);
    }
}

} // verus!
