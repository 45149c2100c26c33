//! In-memory token cache: serves token queries of every chain without a database.
//!
//! Freshness relies on two mechanisms:
//! - write-through: tokens and trades are entered by the process that writes them to the
//!   database.
//! - delta refresh: `refresh` takes the rows modified since the last sync, so that writes of
//!   other processes show up.

use crate::chain::Chain;
use crate::error::StorageError;
use crate::model::{
    lemma_entry, lemma_released, lemma_traded_all_wf, lemma_upsert_row, lemma_upsert_rows,
    lemma_upsert_wf, StoreView, MAX_POSITIONS,
};
use crate::query::{TokenQuery, WithTotal};
use crate::store::{lemma_contains_push, token_views, ChainTokenStore};
use crate::timestamp::Timestamp;
use crate::token::{to_model_token, Address, Token, TokenRow, TokenView};
use std::collections::HashMap;
use vstd::prelude::*;

verus! {

broadcast use vstd::std_specs::hash::group_hash_axioms;

/// The tokens of all chains that are cached.
#[verifier::ext_equal]
pub struct CacheView {
    pub stores: Map<Chain, StoreView>,
    /// Database id of a chain -> chain.
    pub chain_ids: Map<i64, Chain>,
    /// Latest modification that the cache has seen.
    pub last_sync: Timestamp,
}

/// Those of the tokens that belong to `chain`, in order.
pub open spec fn of_chain(tokens: Seq<TokenView>, chain: Chain) -> Seq<TokenView> {
    tokens.filter(|t: TokenView| t.chain == chain)
}

/// Every token belongs to `chain`.
pub open spec fn all_of_chain(tokens: Seq<TokenView>, chain: Chain) -> bool {
    forall|p: int| #![trigger tokens[p]] 0 <= p < tokens.len() ==> tokens[p].chain == chain
}

/// Those of the rows whose token belongs to `chain`, in order.
pub open spec fn rows_of_chain(rows: Seq<(i64, TokenView)>, chain: Chain) -> Seq<(i64, TokenView)> {
    rows.filter(|row: (i64, TokenView)| row.1.chain == chain)
}

impl CacheView {
    /// A cache without chains.
    pub open spec fn empty() -> CacheView {
        CacheView {
            stores: Map::empty(),
            chain_ids: Map::empty(),
            last_sync: Timestamp::unix_epoch(),
        }
    }

    /// Every store is well-formed and holds tokens of its own chain only.
    pub open spec fn wf(self) -> bool {
        forall|chain: Chain| #[trigger]
            self.stores.contains_key(chain) ==> self.stores[chain].wf() && all_of_chain(
                self.stores[chain].tokens,
                chain,
            )
    }

    /// The cache once `tokens` were written: each goes to the store of its chain; tokens of
    /// chains that are not cached are left out.
    pub open spec fn write(self, tokens: Seq<TokenView>, overwrite: bool) -> CacheView {
        CacheView {
            stores: Map::new(
                |chain: Chain| self.stores.contains_key(chain),
                |chain: Chain|
                    self.stores[chain].upsert_all(of_chain(tokens, chain), overwrite),
            ),
            ..self
        }
    }

    /// The cache once the tokens of database rows were written: each goes to the store of its
    /// chain, to the place of its database id; rows of chains that are not cached are left out.
    pub open spec fn write_rows(self, rows: Seq<(i64, TokenView)>) -> CacheView {
        CacheView {
            stores: Map::new(
                |chain: Chain| self.stores.contains_key(chain),
                |chain: Chain| self.stores[chain].upsert_rows(rows_of_chain(rows, chain)),
            ),
            ..self
        }
    }

    /// Every store has a position for each token that it holds.
    pub open spec fn fits(self) -> bool {
        forall|chain: Chain| #[trigger]
            self.stores.contains_key(chain) ==> self.stores[chain].tokens.len() <= MAX_POSITIONS
    }

    /// Every store has positions for `count` tokens more.
    pub open spec fn has_room(self, count: nat) -> bool {
        forall|chain: Chain| #[trigger]
            self.stores.contains_key(chain) ==> self.stores[chain].tokens.len() + count
                <= MAX_POSITIONS
    }

    /// The cache once `trades` of tokens of `chain` were noted. Nothing changes if the chain is
    /// not cached.
    pub open spec fn trade(self, chain: Chain, trades: Seq<(Seq<u8>, int)>) -> CacheView {
        if self.stores.contains_key(chain) {
            CacheView {
                stores: self.stores.insert(chain, self.stores[chain].traded_all(trades)),
                ..self
            }
        } else {
            self
        }
    }

    /// The cache once rows that were modified after `since` were taken in.
    pub open spec fn refresh(
        self,
        since: Timestamp,
        rows: Seq<(TokenRow, Address, i64)>,
    ) -> CacheView {
        CacheView {
            last_sync: newest(self.chain_ids, since, rows),
            ..self.write_rows(refreshed(self.chain_ids, rows))
        }
    }

    /// The cache once the chain with database id `chain_id` was loaded.
    pub open spec fn with_chain(
        self,
        chain_id: i64,
        chain: Chain,
        store: StoreView,
        max_modified_ts: Timestamp,
    ) -> CacheView {
        CacheView {
            stores: self.stores.insert(chain, store),
            chain_ids: self.chain_ids.insert(chain_id, chain),
            last_sync: self.last_sync.later_of(max_modified_ts),
        }
    }
}

/// The cached tokens, per chain.
pub struct TokenCache {
    /// Number of a chain -> its tokens.
    chains: HashMap<u64, ChainTokenStore>,
    chain_ids: HashMap<i64, Chain>,
    /// Largest modification time this cache has seen; `refresh` takes rows newer than this.
    last_sync: Timestamp,
}

impl View for TokenCache {
    type V = CacheView;

    closed spec fn view(&self) -> CacheView {
        CacheView {
            stores: Map::new(
                |chain: Chain| self.chains@.contains_key(chain.number()),
                |chain: Chain| self.chains@[chain.number()]@,
            ),
            chain_ids: self.chain_ids@,
            last_sync: self.last_sync,
        }
    }
}

impl TokenCache {
    /// Every store is well-formed and holds tokens of its own chain only.
    pub closed spec fn wf(self) -> bool {
        &&& self@.wf()
        &&& forall|number: u64| #[trigger]
            self.chains@.contains_key(number) ==> self.chains@[number].wf()
    }

    /// What well-formedness says of the cached tokens.
    pub proof fn lemma_view_wf(&self)
        requires
            self.wf(),
        ensures
            self@.wf(),
            self@.fits(),
    {
        assert forall|chain: Chain| #[trigger] self@.stores.contains_key(chain) implies
            self@.stores[chain].tokens.len() <= MAX_POSITIONS by {
            self.chains@[chain.number()].lemma_view_wf();
        }
    }

    /// A cache without chains.
    pub fn new() -> (cache: TokenCache)
        ensures
            cache.wf(),
            cache@ == CacheView::empty(),
            cache@.last_sync.secs() == 0,
            cache@.last_sync.nanos() == 0,
    {
        let cache = TokenCache {
            chains: HashMap::new(),
            chain_ids: HashMap::new(),
            last_sync: Timestamp::epoch(),
        };
        assert(cache@ =~= CacheView::empty());
        cache
    }

    /// Whether tokens of this chain are cached.
    pub fn has_chain(&self, chain: &Chain) -> (cached: bool)
        ensures
            cached == self@.stores.contains_key(*chain),
    {
        self.chains.contains_key(&chain.to_number())
    }

    /// The largest modification time this cache has seen.
    pub fn last_sync(&self) -> (timestamp: Timestamp)
        ensures
            timestamp == self@.last_sync,
    {
        self.last_sync
    }

    /// Whether every store has positions for `count` tokens more, so that as many tokens can be
    /// written.
    pub fn can_hold(&self, count: usize) -> (room: bool)
        ensures
            room == self@.has_room(count as nat),
    {
        let room: bool = self.chain_can_hold(&Chain::Ethereum, count) && self.chain_can_hold(
            &Chain::Starknet,
            count,
        ) && self.chain_can_hold(&Chain::ZkSync, count) && self.chain_can_hold(
            &Chain::Arbitrum,
            count,
        ) && self.chain_can_hold(&Chain::Base, count) && self.chain_can_hold(&Chain::Bsc, count)
            && self.chain_can_hold(&Chain::Unichain, count);
        assert(!room ==> !self@.has_room(count as nat));
        room
    }

    /// Whether the store of a chain, if it is cached, has positions for `count` tokens more.
    fn chain_can_hold(&self, chain: &Chain, count: usize) -> (room: bool)
        ensures
            room == (self@.stores.contains_key(*chain) ==> self@.stores[*chain].tokens.len() + count
                <= MAX_POSITIONS),
    {
        match self.chains.get(&chain.to_number()) {
            Some(store) => store.len() as u64 <= MAX_POSITIONS && count as u64 <= MAX_POSITIONS
                - store.len() as u64,
            None => true,
        }
    }

    /// The tokens of a chain.
    fn store(&self, chain: &Chain) -> (store: Result<&ChainTokenStore, StorageError>)
        requires
            self.wf(),
        ensures
            match store {
                Ok(store) => self@.stores.contains_key(*chain) && store.wf() && store@
                    == self@.stores[*chain],
                Err(error) => !self@.stores.contains_key(*chain) && error.is_not_found(
                    "Chain"@,
                    chain.text(),
                ),
            },
    {
        match self.chains.get(&chain.to_number()) {
            Some(store) => Ok(store),
            None => Err(StorageError::NotFound("Chain".to_owned(), chain.name())),
        }
    }

    /// Evaluates a query against the tokens of its chain.
    pub fn query_tokens(&self, query: &TokenQuery) -> (result: Result<
        WithTotal<Vec<Token>>,
        StorageError,
    >)
        requires
            self.wf(),
            self@.stores.contains_key(query.chain) ==> query.wf(),
        ensures
            match result {
                Ok(found) => {
                    &&& self@.stores.contains_key(query.chain)
                    &&& token_views(found.entity@) == self@.stores[query.chain].answer(
                        query.filter(),
                        query.page(),
                    )
                    &&& found.total == Some(
                        self@.stores[query.chain].matches(query.filter()).len() as i64,
                    )
                },
                Err(error) => {
                    &&& !self@.stores.contains_key(query.chain)
                    &&& error.is_not_found("Chain"@, query.chain.text())
                },
            },
    {
        match self.store(&query.chain) {
            Ok(store) => Ok(store.query(query)),
            Err(error) => Err(error),
        }
    }

    /// Inserts tokens that are not yet cached; existing entries are left untouched.
    pub fn add_tokens(&mut self, tokens: &[Token])
        requires
            old(self).wf(),
            old(self)@.write(token_views(tokens@), false).fits(),
        ensures
            final(self).wf(),
            final(self)@ == old(self)@.write(token_views(tokens@), false),
    {
        self.write_tokens(tokens, false);
    }

    /// Inserts or overwrites tokens with the given values.
    pub fn upsert_tokens(&mut self, tokens: &[Token])
        requires
            old(self).wf(),
            old(self)@.write(token_views(tokens@), true).fits(),
        ensures
            final(self).wf(),
            final(self)@ == old(self)@.write(token_views(tokens@), true),
    {
        self.write_tokens(tokens, true);
    }

    /// Writes one token to the store of its chain, if that is cached.
    fn write_token(&mut self, token: &Token, overwrite: bool)
        requires
            old(self).wf(),
            old(self)@.stores.contains_key(token.chain) ==> old(
                self,
            )@.stores[token.chain].upsert(token@, overwrite).tokens.len() <= MAX_POSITIONS,
        ensures
            final(self).wf(),
            final(self)@.chain_ids == old(self)@.chain_ids,
            final(self)@.last_sync == old(self)@.last_sync,
            final(self)@.stores == (if old(self)@.stores.contains_key(token.chain) {
                old(self)@.stores.insert(
                    token.chain,
                    old(self)@.stores[token.chain].upsert(token@, overwrite),
                )
            } else {
                old(self)@.stores
            }),
    {
        let number: u64 = token.chain.to_number();
        assert(forall|chain: Chain| chain.number() == number ==> chain == token.chain);
        match self.chains.remove(&number) {
            Some(taken) => {
                let mut store = taken;
                assert(old(self)@.stores.contains_key(token.chain));
                store.upsert(token.clone(), overwrite);
                let ghost written = store@;
                self.chains.insert(number, store);
                proof {
                    let before = old(self)@.stores[token.chain];
                    assert(all_of_chain(before.tokens, token.chain));
                    lemma_upsert_wf(before, token@, overwrite);
                    assert(all_of_chain(written.tokens, token.chain)) by {
                        if before.has(token@.address) {
                            assert(before.holds(
                                token@.address,
                                before.position(token@.address),
                            ));
                        }
                    }
                    assert(self@.stores =~= old(self)@.stores.insert(token.chain, written));
                }
            },
            None => {
                assert(self.chains@ =~= old(self).chains@);
            },
        }
    }

    /// Writes tokens, each to the store of its chain.
    fn write_tokens(&mut self, tokens: &[Token], overwrite: bool)
        requires
            old(self).wf(),
            old(self)@.write(token_views(tokens@), overwrite).fits(),
        ensures
            final(self).wf(),
            final(self)@ == old(self)@.write(token_views(tokens@), overwrite),
    {
        let ghost all = token_views(tokens@);
        let ghost start = self@;
        let mut i: usize = 0;
        assert(self@ =~= start.write(all.take(0), overwrite)) by {
            reveal(Seq::filter);
            assert(all.take(0) =~= Seq::empty());
        }
        while i < tokens.len()
            invariant
                i <= tokens@.len(),
                all == token_views(tokens@),
                start.wf(),
                start.write(all, overwrite).fits(),
                self.wf(),
                self@ == start.write(all.take(i as int), overwrite),
            decreases tokens@.len() - i,
        {
            let token = &tokens[i];
            proof {
                lemma_write_step(start, all, i as int, overwrite);
            }
            self.write_token(token, overwrite);
            i += 1;
        }
        assert(all.take(all.len() as int) =~= all);
    }

    /// Notes trades of tokens of one chain. Nothing happens if the chain is not cached.
    pub fn update_last_traded(&mut self, chain: &Chain, updates: &[(Address, Timestamp)])
        requires
            old(self).wf(),
        ensures
            final(self).wf(),
            final(self)@ == old(self)@.trade(*chain, trade_views(updates@)),
    {
        let number: u64 = chain.to_number();
        assert(forall|c: Chain| c.number() == number ==> c == *chain);
        let ghost trades = trade_views(updates@);
        match self.chains.remove(&number) {
            Some(taken) => {
                let mut store = taken;
                let ghost before = store@;
                assert(old(self)@.stores.contains_key(*chain));
                let mut i: usize = 0;
                assert(trades.take(0) =~= Seq::empty());
                while i < updates.len()
                    invariant
                        i <= updates@.len(),
                        trades == trade_views(updates@),
                        store.wf(),
                        store@ == before.traded_all(trades.take(i as int)),
                    decreases updates@.len() - i,
                {
                    assert(trades.take(i + 1).drop_last() =~= trades.take(i as int));
                    store.update_last_traded(&updates[i].0, updates[i].1);
                    i += 1;
                }
                assert(trades.take(trades.len() as int) =~= trades);
                self.chains.insert(number, store);
                proof {
                    lemma_traded_all_wf(before, trades);
                    assert(self@.stores =~= old(self)@.stores.insert(
                        *chain,
                        before.traded_all(trades),
                    ));
                }
            },
            None => {
                assert(self.chains@ =~= old(self).chains@);
            },
        }
    }

    /// Takes in what came of asking for the rows modified after `since`, the last sync when they
    /// were asked for, so that the cache converges on writes made by other processes. Gives the
    /// number of rows. The sync marker advances only if the rows could be had.
    pub fn refresh(
        &mut self,
        since: Timestamp,
        fetched: Result<Vec<(TokenRow, Address, i64)>, StorageError>,
    ) -> (n_refreshed: Result<usize, StorageError>)
        requires
            old(self).wf(),
            fetched matches Ok(rows) ==> old(self)@.refresh(since, rows@).fits(),
        ensures
            final(self).wf(),
            match fetched {
                Ok(rows) => final(self)@ == old(self)@.refresh(since, rows@) && n_refreshed == Ok::<
                    usize,
                    StorageError,
                >(rows@.len() as usize),
                Err(error) => final(self)@ == old(self)@ && n_refreshed == Err::<
                    usize,
                    StorageError,
                >(error),
            },
    {
        match fetched {
            Ok(rows) => Ok(self.refresh_rows(since, rows.as_slice())),
            Err(error) => Err(error),
        }
    }

    /// Writes the token of one database row to the store of its chain, if that is cached.
    fn write_row(&mut self, id: i64, token: Token)
        requires
            old(self).wf(),
            old(self)@.stores.contains_key(token.chain) ==> old(
                self,
            )@.stores[token.chain].upsert_row(id, token@).tokens.len() <= MAX_POSITIONS,
        ensures
            final(self).wf(),
            final(self)@.chain_ids == old(self)@.chain_ids,
            final(self)@.last_sync == old(self)@.last_sync,
            final(self)@.stores == (if old(self)@.stores.contains_key(token.chain) {
                old(self)@.stores.insert(
                    token.chain,
                    old(self)@.stores[token.chain].upsert_row(id, token@),
                )
            } else {
                old(self)@.stores
            }),
    {
        let ghost added = token@;
        let ghost chain = token.chain;
        let number: u64 = token.chain.to_number();
        assert(forall|c: Chain| c.number() == number ==> c == chain);
        match self.chains.remove(&number) {
            Some(taken) => {
                let mut store = taken;
                assert(old(self)@.stores.contains_key(chain));
                store.upsert_row(id, token);
                let ghost written = store@;
                self.chains.insert(number, store);
                proof {
                    lemma_row_of_chain(old(self)@.stores[chain], id, added, chain);
                    assert(self@.stores =~= old(self)@.stores.insert(chain, written));
                }
            },
            None => {
                assert(self.chains@ =~= old(self).chains@);
            },
        }
    }

    /// Upserts the tokens of rows that were modified after `since` and advances the sync marker.
    /// Rows of unknown chains are passed over. Gives the number of rows.
    fn refresh_rows(&mut self, since: Timestamp, rows: &[(TokenRow, Address, i64)]) -> (n_refreshed:
        usize)
        requires
            old(self).wf(),
            old(self)@.refresh(since, rows@).fits(),
        ensures
            final(self).wf(),
            final(self)@ == old(self)@.refresh(since, rows@),
            n_refreshed == rows@.len(),
    {
        let ghost start = self@;
        let ghost all = refreshed(start.chain_ids, rows@);
        let mut max_modified_ts = since;
        let mut i: usize = 0;
        proof {
            assert(rows@.take(0) =~= Seq::empty());
            assert(self@.stores =~= start.write_rows(Seq::empty()).stores) by {
                reveal(Seq::filter);
            }
            assert(start.write_rows(all).fits()) by {
                let written = start.write_rows(all);
                assert forall|chain: Chain| #[trigger] written.stores.contains_key(chain) implies
                    written.stores[chain].tokens.len() <= MAX_POSITIONS by {
                    assert(start.refresh(since, rows@).stores.contains_key(chain));
                }
            }
        }
        while i < rows.len()
            invariant
                i <= rows@.len(),
                start.wf(),
                self.wf(),
                all == refreshed(start.chain_ids, rows@),
                start.write_rows(all).fits(),
                self@.chain_ids == start.chain_ids,
                self@.stores == start.write_rows(
                    refreshed(start.chain_ids, rows@.take(i as int)),
                ).stores,
                max_modified_ts == newest(start.chain_ids, since, rows@.take(i as int)),
            decreases rows@.len() - i,
        {
            proof {
                assert(rows@.take(i + 1).drop_last() =~= rows@.take(i as int));
                lemma_refreshed_prefix(start.chain_ids, rows@, i + 1);
            }
            let (row, address, chain_id) = &rows[i];
            let known: Option<Chain> = match self.chain_ids.get(chain_id) {
                Some(chain) => Some(*chain),
                None => None,
            };
            if let Some(chain) = known {
                max_modified_ts = max_modified_ts.max(row.modified_ts);
                proof {
                    let sofar = refreshed(start.chain_ids, rows@.take(i + 1));
                    lemma_write_rows_step(start, all, sofar.len() - 1);
                    assert(all.take(sofar.len() - 1) =~= sofar.drop_last());
                    assert(sofar.drop_last() =~= refreshed(start.chain_ids, rows@.take(i as int)));
                    assert(all[sofar.len() - 1] == sofar.last());
                }
                self.write_row(row.id, to_model_token(row, address, chain));
            }
            i += 1;
        }
        assert(rows@.take(rows@.len() as int) =~= rows@);
        self.last_sync = max_modified_ts;
        rows.len()
    }

    /// Enters the tokens of a chain, as they were loaded from the database.
    pub fn add_chain(
        &mut self,
        chain_id: i64,
        chain: Chain,
        store: ChainTokenStore,
        max_modified_ts: Timestamp,
    )
        requires
            old(self).wf(),
            store.wf(),
            all_of_chain(store@.tokens, chain),
        ensures
            final(self).wf(),
            final(self)@ == old(self)@.with_chain(chain_id, chain, store@, max_modified_ts),
    {
        let number: u64 = chain.to_number();
        assert(forall|c: Chain| c.number() == number ==> c == chain);
        let ghost loaded = store@;
        proof {
            store.lemma_view_wf();
        }
        self.chain_ids.insert(chain_id, chain);
        self.chains.insert(number, store);
        self.last_sync = self.last_sync.max(max_modified_ts);
        assert(self@.stores =~= old(self)@.stores.insert(chain, loaded));
    }

    /// A cache of the given chains, without tokens.
    pub fn with_empty_chains(chains: &[Chain]) -> (cache: TokenCache)
        ensures
            cache.wf(),
            forall|chain: Chain| #[trigger]
                cache@.stores.contains_key(chain) <==> chains@.contains(chain),
            forall|chain: Chain| #[trigger]
                cache@.stores.contains_key(chain) ==> cache@.stores[chain] == StoreView::empty(),
            cache@.chain_ids == Map::<i64, Chain>::empty(),
            cache@.last_sync == Timestamp::unix_epoch(),
            cache@.last_sync.secs() == 0,
            cache@.last_sync.nanos() == 0,
    {
        let mut cache = TokenCache::new();
        let mut i: usize = 0;
        while i < chains.len()
            invariant
                i <= chains@.len(),
                cache.wf(),
                forall|chain: Chain| #[trigger]
                    cache@.stores.contains_key(chain) <==> chains@.take(i as int).contains(chain),
                forall|chain: Chain| #[trigger]
                    cache@.stores.contains_key(chain) ==> cache@.stores[chain]
                        == StoreView::empty(),
                cache@.chain_ids == Map::<i64, Chain>::empty(),
                cache@.last_sync == Timestamp::unix_epoch(),
                cache@.last_sync.secs() == 0,
                cache@.last_sync.nanos() == 0,
            decreases chains@.len() - i,
        {
            let number: u64 = chains[i].to_number();
            let ghost before = cache@.stores;
            let ghost chain = chains@[i as int];
            assert(forall|c: Chain| c.number() == number ==> c == chain);
            cache.chains.insert(number, ChainTokenStore::new());
            proof {
                assert(cache@.stores =~= before.insert(chain, StoreView::empty()));
                assert(chains@.take(i + 1) =~= chains@.take(i as int).push(chain));
                assert forall|c: Chain| #[trigger]
                    cache@.stores.contains_key(c) <==> chains@.take(i + 1).contains(c) by {
                    lemma_contains_push(chains@.take(i as int), chain, c);
                }
            }
            i += 1;
        }
        assert(chains@.take(chains@.len() as int) =~= chains@);
        cache
    }
}

/// Trades as address and time in microseconds.
pub open spec fn trade_views(updates: Seq<(Address, Timestamp)>) -> Seq<(Seq<u8>, int)> {
    updates.map_values(|u: (Address, Timestamp)| (u.0@, u.1.micros()))
}

/// The tokens that rows describe, with their database ids, in order, without those of unknown
/// chains.
pub open spec fn refreshed(
    chain_ids: Map<i64, Chain>,
    rows: Seq<(TokenRow, Address, i64)>,
) -> Seq<(i64, TokenView)>
    decreases rows.len(),
{
    if rows.len() == 0 {
        Seq::empty()
    } else {
        let before = refreshed(chain_ids, rows.drop_last());
        let (row, address, chain_id) = rows.last();
        if chain_ids.contains_key(chain_id) {
            before.push((row.id, row.model(address@, chain_ids[chain_id])))
        } else {
            before
        }
    }
}

/// The latest of `since` and the modification times of rows of known chains.
pub open spec fn newest(
    chain_ids: Map<i64, Chain>,
    since: Timestamp,
    rows: Seq<(TokenRow, Address, i64)>,
) -> Timestamp
    decreases rows.len(),
{
    if rows.len() == 0 {
        since
    } else {
        let before = newest(chain_ids, since, rows.drop_last());
        let (row, _, chain_id) = rows.last();
        if chain_ids.contains_key(chain_id) {
            before.later_of(row.modified_ts)
        } else {
            before
        }
    }
}

/// Writing one token more.
proof fn lemma_write_step(start: CacheView, tokens: Seq<TokenView>, i: int, overwrite: bool)
    requires
        start.wf(),
        0 <= i < tokens.len(),
        start.write(tokens, overwrite).fits(),
    ensures
        ({
            let now = start.write(tokens.take(i), overwrite);
            let chain = tokens[i].chain;
            &&& now.stores.contains_key(chain) ==> now.stores[chain].upsert(
                tokens[i],
                overwrite,
            ).tokens.len() <= MAX_POSITIONS
            &&& start.write(tokens.take(i + 1), overwrite).stores == (if now.stores.contains_key(
                chain,
            ) {
                now.stores.insert(chain, now.stores[chain].upsert(tokens[i], overwrite))
            } else {
                now.stores
            })
        }),
{
    let now = start.write(tokens.take(i), overwrite);
    let next = start.write(tokens.take(i + 1), overwrite);
    let chain = tokens[i].chain;
    assert(tokens.take(i + 1) =~= tokens.take(i).push(tokens[i]));
    assert(tokens.take(i + 1).drop_last() =~= tokens.take(i));
    assert forall|c: Chain| start.stores.contains_key(c) implies #[trigger] next.stores[c] == (if c
        == chain {
        now.stores[c].upsert(tokens[i], overwrite)
    } else {
        now.stores[c]
    }) by {
        reveal(Seq::filter);
        if c == chain {
            assert(of_chain(tokens.take(i + 1), c) =~= of_chain(tokens.take(i), c).push(tokens[i]));
            assert(of_chain(tokens.take(i + 1), c).drop_last() =~= of_chain(tokens.take(i), c));
        }
    }
    if start.stores.contains_key(chain) {
        lemma_write_prefix(start.stores[chain], tokens, chain, i + 1, overwrite);
        assert(start.write(tokens, overwrite).stores.contains_key(chain));
        assert(next.stores[chain] == now.stores[chain].upsert(tokens[i], overwrite));
        assert(next.stores =~= now.stores.insert(
            chain,
            now.stores[chain].upsert(tokens[i], overwrite),
        ));
    } else {
        assert(next.stores =~= now.stores);
    }
}

/// Writing fewer tokens gives a store that is not longer.
proof fn lemma_write_prefix(
    store: StoreView,
    tokens: Seq<TokenView>,
    chain: Chain,
    i: int,
    overwrite: bool,
)
    requires
        store.wf(),
        0 <= i <= tokens.len(),
    ensures
        store.upsert_all(of_chain(tokens.take(i), chain), overwrite).tokens.len()
            <= store.upsert_all(of_chain(tokens, chain), overwrite).tokens.len(),
    decreases tokens.len() - i,
{
    reveal(Seq::filter);
    if i == tokens.len() {
        assert(tokens.take(i) =~= tokens);
    } else {
        lemma_write_prefix(store, tokens, chain, i + 1, overwrite);
        assert(tokens.take(i + 1).drop_last() =~= tokens.take(i));
        let less = of_chain(tokens.take(i), chain);
        if tokens[i].chain == chain {
            let more = of_chain(tokens.take(i + 1), chain);
            assert(more =~= less.push(tokens[i]));
            assert(more.drop_last() =~= less);
        }
    }
}

/// Fewer rows describe the first of the tokens that all of them describe.
proof fn lemma_refreshed_prefix(
    chain_ids: Map<i64, Chain>,
    rows: Seq<(TokenRow, Address, i64)>,
    i: int,
)
    requires
        0 <= i <= rows.len(),
    ensures
        ({
            let fewer = refreshed(chain_ids, rows.take(i));
            &&& fewer.len() <= refreshed(chain_ids, rows).len()
            &&& refreshed(chain_ids, rows).take(fewer.len() as int) == fewer
        }),
    decreases rows.len() - i,
{
    let all = refreshed(chain_ids, rows);
    if i == rows.len() {
        assert(rows.take(i) =~= rows);
        assert(all.take(all.len() as int) =~= all);
    } else {
        lemma_refreshed_prefix(chain_ids, rows, i + 1);
        assert(rows.take(i + 1).drop_last() =~= rows.take(i));
        let fewer = refreshed(chain_ids, rows.take(i));
        let more = refreshed(chain_ids, rows.take(i + 1));
        assert(all.take(fewer.len() as int) =~= more.take(fewer.len() as int));
        assert(more.take(fewer.len() as int) =~= fewer);
    }
}

/// Writing one row more.
proof fn lemma_write_rows_step(start: CacheView, rows: Seq<(i64, TokenView)>, i: int)
    requires
        start.wf(),
        0 <= i < rows.len(),
        start.write_rows(rows).fits(),
    ensures
        ({
            let now = start.write_rows(rows.take(i));
            let (id, token) = rows[i];
            &&& now.stores.contains_key(token.chain) ==> now.stores[token.chain].upsert_row(
                id,
                token,
            ).tokens.len() <= MAX_POSITIONS
            &&& start.write_rows(rows.take(i + 1)).stores == (if now.stores.contains_key(
                token.chain,
            ) {
                now.stores.insert(token.chain, now.stores[token.chain].upsert_row(id, token))
            } else {
                now.stores
            })
        }),
{
    let now = start.write_rows(rows.take(i));
    let next = start.write_rows(rows.take(i + 1));
    let (id, token) = rows[i];
    let chain = token.chain;
    assert(rows.take(i + 1) =~= rows.take(i).push(rows[i]));
    assert(rows.take(i + 1).drop_last() =~= rows.take(i));
    assert forall|c: Chain| start.stores.contains_key(c) implies #[trigger] next.stores[c] == (if c
        == chain {
        now.stores[c].upsert_row(id, token)
    } else {
        now.stores[c]
    }) by {
        reveal(Seq::filter);
        if c == chain {
            assert(rows_of_chain(rows.take(i + 1), c) =~= rows_of_chain(rows.take(i), c).push(
                rows[i],
            ));
            assert(rows_of_chain(rows.take(i + 1), c).drop_last() =~= rows_of_chain(
                rows.take(i),
                c,
            ));
        }
    }
    if start.stores.contains_key(chain) {
        lemma_write_rows_prefix(start.stores[chain], rows, chain, i + 1);
        assert(start.write_rows(rows).stores.contains_key(chain));
        assert(next.stores[chain] == now.stores[chain].upsert_row(id, token));
        assert(next.stores =~= now.stores.insert(chain, now.stores[chain].upsert_row(id, token)));
    } else {
        assert(next.stores =~= now.stores);
    }
}

/// Writing fewer rows gives a store that is not longer.
proof fn lemma_write_rows_prefix(
    store: StoreView,
    rows: Seq<(i64, TokenView)>,
    chain: Chain,
    i: int,
)
    requires
        store.wf(),
        0 <= i <= rows.len(),
    ensures
        store.upsert_rows(rows_of_chain(rows.take(i), chain)).tokens.len() <= store.upsert_rows(
            rows_of_chain(rows, chain),
        ).tokens.len(),
    decreases rows.len() - i,
{
    reveal(Seq::filter);
    if i == rows.len() {
        assert(rows.take(i) =~= rows);
    } else {
        lemma_write_rows_prefix(store, rows, chain, i + 1);
        assert(rows.take(i + 1).drop_last() =~= rows.take(i));
        let less = rows_of_chain(rows.take(i), chain);
        if rows[i].1.chain == chain {
            let more = rows_of_chain(rows.take(i + 1), chain);
            assert(more =~= less.push(rows[i]));
            assert(more.drop_last() =~= less);
            lemma_upsert_rows(store, less);
            lemma_upsert_row(
                store.upsert_rows(less),
                rows[i].0,
                rows[i].1,
                rows[i].1.address,
            );
        }
    }
}

/// A store keeps to the tokens of its chain when the row of one of them is written.
pub proof fn lemma_row_of_chain(store: StoreView, id: i64, token: TokenView, chain: Chain)
    requires
        store.wf(),
        all_of_chain(store.tokens, chain),
        token.chain == chain,
    ensures
        store.upsert_row(id, token).wf(),
        all_of_chain(store.upsert_row(id, token).tokens, chain),
{
    let after = store.upsert_row(id, token);
    lemma_upsert_row(store, id, token, token.address);
    assert forall|p: int| #![trigger after.tokens[p]] 0 <= p < after.tokens.len() implies after.tokens[p].chain
        == chain by {
        let address = after.tokens[p].address;
        assert(after.holds(address, p));
        lemma_entry(after, address, p);
        lemma_upsert_row(store, id, token, address);
        lemma_released(store, id, address);
        if address != token.address {
            let q = store.position(address);
            assert(store.holds(address, q));
        }
    }
}

} // verus!
