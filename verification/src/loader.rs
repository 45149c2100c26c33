//! Loads the tokens of one chain, batch by batch.

use crate::cache::{all_of_chain, lemma_row_of_chain};
use crate::chain::Chain;
use crate::error::StorageError;
use crate::model::{lemma_upsert_row, StoreView, MAX_POSITIONS};
use crate::store::ChainTokenStore;
use crate::timestamp::Timestamp;
use crate::token::{to_model_token, Address, TokenRow};
use std::collections::HashMap;
use vstd::prelude::*;

verus! {

broadcast use vstd::std_specs::hash::group_hash_axioms;

/// Number of rows fetched per query during the initial full load.
pub const LOAD_BATCH_SIZE: i64 = 500_000;

/// The chain that a row of the chain table names.
pub fn chain_of_row(name: &str) -> (chain: Result<Chain, StorageError>)
    ensures
        match chain {
            Ok(chain) => chain.text() == name@,
            Err(error) => (forall|c: Chain| c.text() != name@) && error.is_unexpected(
                "Unknown chain in chain table: "@ + name@,
            ),
        },
{
    match Chain::from_name(name) {
        Some(chain) => Ok(chain),
        None => Err(
            StorageError::Unexpected("Unknown chain in chain table: ".to_owned().concat(name)),
        ),
    }
}

/// What has been loaded so far.
#[verifier::ext_equal]
pub struct LoaderView {
    pub store: StoreView,
    /// Database id of a token -> its address.
    pub addresses: Map<i64, Seq<u8>>,
    /// Latest modification among the rows.
    pub max_modified_ts: Timestamp,
    /// Database id of the last row.
    pub last_db_id: i64,
}

impl LoaderView {
    /// Nothing has been loaded yet.
    pub open spec fn fresh() -> LoaderView {
        LoaderView {
            store: StoreView::empty(),
            addresses: Map::empty(),
            max_modified_ts: Timestamp::unix_epoch(),
            last_db_id: i64::MIN,
        }
    }

    /// One row more.
    pub open spec fn load_row(self, row: TokenRow, address: Seq<u8>, chain: Chain) -> LoaderView {
        LoaderView {
            store: self.store.upsert_row(row.id, row.model(address, chain)),
            addresses: self.addresses.insert(row.id, address),
            max_modified_ts: self.max_modified_ts.later_of(row.modified_ts),
            last_db_id: row.id,
        }
    }

    /// More rows, one after the other.
    pub open spec fn load(self, rows: Seq<(TokenRow, Address)>, chain: Chain) -> LoaderView
        decreases rows.len(),
    {
        if rows.len() == 0 {
            self
        } else {
            self.load(rows.drop_last(), chain).load_row(rows.last().0, rows.last().1@, chain)
        }
    }

    /// The store once the last trades were set, one after the other. Those of tokens that were
    /// not loaded are passed over.
    pub open spec fn finish(self, last_traded: Seq<(i64, Timestamp)>) -> StoreView
        decreases last_traded.len(),
    {
        if last_traded.len() == 0 {
            self.store
        } else {
            let before = self.finish(last_traded.drop_last());
            let (id, valid_from) = last_traded.last();
            if self.addresses.contains_key(id) {
                before.set_traded(self.addresses[id], valid_from.micros())
            } else {
                before
            }
        }
    }
}

/// The tokens of a chain while they are being loaded.
pub struct ChainLoader {
    chain: Chain,
    store: ChainTokenStore,
    address_by_db_id: HashMap<i64, Address>,
    max_modified_ts: Timestamp,
    last_db_id: i64,
}

impl View for ChainLoader {
    type V = LoaderView;

    closed spec fn view(&self) -> LoaderView {
        LoaderView {
            store: self.store@,
            addresses: self.address_by_db_id@.map_values(|address: Address| address@),
            max_modified_ts: self.max_modified_ts,
            last_db_id: self.last_db_id,
        }
    }
}

impl ChainLoader {
    /// The store is well-formed and holds tokens of the chain only.
    pub closed spec fn wf(self) -> bool {
        &&& self.store.wf()
        &&& all_of_chain(self@.store.tokens, self.chain)
    }

    /// The chain that is loaded.
    pub closed spec fn chain(self) -> Chain {
        self.chain
    }

    /// Starts to load a chain.
    pub fn new(chain: Chain) -> (loader: ChainLoader)
        ensures
            loader.wf(),
            loader.chain() == chain,
            loader@ == LoaderView::fresh(),
            loader@.max_modified_ts.secs() == 0,
            loader@.max_modified_ts.nanos() == 0,
    {
        let loader = ChainLoader {
            chain,
            store: ChainTokenStore::new(),
            address_by_db_id: HashMap::new(),
            max_modified_ts: Timestamp::epoch(),
            last_db_id: i64::MIN,
        };
        assert(loader@ =~= LoaderView::fresh());
        loader
    }

    /// Database id of the last row; the next batch starts behind it.
    pub fn last_db_id(&self) -> (id: i64)
        ensures
            id == self@.last_db_id,
    {
        self.last_db_id
    }

    /// The number of tokens loaded so far.
    pub fn len(&self) -> (len: usize)
        ensures
            len == self@.store.tokens.len(),
    {
        self.store.len()
    }

    /// Takes a batch of rows in. Tells whether another batch is to be fetched: a batch that is
    /// not full was the last one.
    pub fn load_batch(&mut self, batch: &[(TokenRow, Address)]) -> (more: bool)
        requires
            old(self).wf(),
            old(self)@.load(batch@, old(self).chain()).store.tokens.len() <= MAX_POSITIONS,
        ensures
            final(self).wf(),
            final(self).chain() == old(self).chain(),
            final(self)@ == old(self)@.load(batch@, old(self).chain()),
            more == (batch@.len() >= LOAD_BATCH_SIZE),
    {
        let ghost start = self@;
        let ghost chain = self.chain;
        let mut i: usize = 0;
        proof {
            assert(batch@.take(0) =~= Seq::empty());
            self.store.lemma_view_wf();
        }
        while i < batch.len()
            invariant
                i <= batch@.len(),
                self.wf(),
                self.chain == chain,
                start.store.wf(),
                self@ == start.load(batch@.take(i as int), chain),
                start.load(batch@, chain).store.tokens.len() <= MAX_POSITIONS,
            decreases batch@.len() - i,
        {
            let (row, address) = &batch[i];
            let ghost before = self@;
            proof {
                assert(batch@.take(i + 1).drop_last() =~= batch@.take(i as int));
                lemma_load_prefix(start, batch@, chain, i + 1);
                self.store.lemma_view_wf();
                lemma_row_of_chain(before.store, row.id, row.model(address@, chain), chain);
            }
            self.last_db_id = row.id;
            self.max_modified_ts = self.max_modified_ts.max(row.modified_ts);
            self.address_by_db_id.insert(row.id, address.clone());
            self.store.upsert_row(row.id, to_model_token(row, address, self.chain));
            assert(self@.addresses =~= before.addresses.insert(row.id, address@));
            i += 1;
        }
        assert(batch@.take(batch@.len() as int) =~= batch@);
        batch.len() >= LOAD_BATCH_SIZE as usize
    }

    /// Sets the last trade of each token, given by database id, and hands the store out together
    /// with the latest modification among the rows.
    pub fn finish(self, last_traded: &[(i64, Timestamp)]) -> (loaded: (ChainTokenStore, Timestamp))
        requires
            self.wf(),
        ensures
            loaded.0.wf(),
            all_of_chain(loaded.0@.tokens, self.chain()),
            loaded.0@ == self@.finish(last_traded@),
            loaded.1 == self@.max_modified_ts,
    {
        let ghost view = self@;
        let ChainLoader { chain, store, address_by_db_id, max_modified_ts, last_db_id: _ } = self;
        let mut store = store;
        let mut i: usize = 0;
        assert(last_traded@.take(0) =~= Seq::empty());
        while i < last_traded.len()
            invariant
                i <= last_traded@.len(),
                store.wf(),
                all_of_chain(store@.tokens, chain),
                view.addresses == address_by_db_id@.map_values(|address: Address| address@),
                store@.tokens == view.store.tokens,
                store@ == view.finish(last_traded@.take(i as int)),
            decreases last_traded@.len() - i,
        {
            assert(last_traded@.take(i + 1).drop_last() =~= last_traded@.take(i as int));
            let (token_db_id, valid_from) = &last_traded[i];
            if let Some(address) = address_by_db_id.get(token_db_id) {
                store.set_last_traded(address, *valid_from);
            }
            i += 1;
        }
        assert(last_traded@.take(last_traded@.len() as int) =~= last_traded@);
        (store, max_modified_ts)
    }
}

/// Loading fewer rows gives a store that is not longer.
proof fn lemma_load_prefix(
    start: LoaderView,
    rows: Seq<(TokenRow, Address)>,
    chain: Chain,
    i: int,
)
    requires
        start.store.wf(),
        0 <= i <= rows.len(),
    ensures
        start.load(rows.take(i), chain).store.tokens.len() <= start.load(
            rows,
            chain,
        ).store.tokens.len(),
    decreases rows.len() - i,
{
    if i == rows.len() {
        assert(rows.take(i) =~= rows);
    } else {
        lemma_load_prefix(start, rows, chain, i + 1);
        assert(rows.take(i + 1).drop_last() =~= rows.take(i));
        lemma_load_wf(start, rows.take(i), chain);
        let token = rows[i].0.model(rows[i].1@, chain);
        lemma_upsert_row(
            start.load(rows.take(i), chain).store,
            rows[i].0.id,
            token,
            token.address,
        );
    }
}

/// Loading rows keeps a store well-formed.
pub proof fn lemma_load_wf(start: LoaderView, rows: Seq<(TokenRow, Address)>, chain: Chain)
    requires
        start.store.wf(),
    ensures
        start.load(rows, chain).store.wf(),
        start.store.tokens.len() <= start.load(rows, chain).store.tokens.len()
            <= start.store.tokens.len() + rows.len(),
    decreases rows.len(),
{
    if rows.len() > 0 {
        lemma_load_wf(start, rows.drop_last(), chain);
        let token = rows.last().0.model(rows.last().1@, chain);
        lemma_upsert_row(
            start.load(rows.drop_last(), chain).store,
            rows.last().0.id,
            token,
            token.address,
        );
    }
}

} // verus!
