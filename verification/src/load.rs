//! Loads the cache from the database, chain by chain.
//!
//! The database is asked from outside: `step` says what to fetch next, and what was fetched is
//! handed back.

use crate::cache::{CacheView, TokenCache};
use crate::chain::{law_chain_names_are_distinct, Chain};
use crate::error::StorageError;
use crate::loader::{chain_of_row, ChainLoader, LoaderView, LOAD_BATCH_SIZE};
use crate::model::MAX_POSITIONS;
use crate::timestamp::Timestamp;
use crate::token::{Address, TokenRow};
use vstd::prelude::*;

verus! {

/// What is to be fetched next.
#[derive(Clone, Copy, PartialEq, Eq, Structural, Debug)]
pub enum LoadStep {
    /// At most `LOAD_BATCH_SIZE` tokens of a chain, in the order of their database ids, from
    /// behind `after`.
    Tokens { chain_id: i64, after: i64 },
    /// The latest balance change of every token of a chain.
    Trades { chain_id: i64 },
    /// Nothing: everything is loaded.
    Finished,
}

/// A chain that is being loaded.
#[verifier::ext_equal]
pub struct CurrentView {
    pub chain_id: i64,
    pub chain: Chain,
    pub loaded: LoaderView,
    /// The last batch of tokens came in.
    pub complete: bool,
}

/// How far the load has come.
#[verifier::ext_equal]
pub struct LoadView {
    /// The chains loaded so far.
    pub cache: CacheView,
    /// Database ids and names of the chains that are left.
    pub left: Seq<(i64, Seq<char>)>,
    pub current: Option<CurrentView>,
}

/// `name` is the name of a chain.
pub open spec fn names_a_chain(name: Seq<char>) -> bool {
    exists|chain: Chain| chain.text() == name
}

/// The chain with this name.
pub open spec fn chain_named(name: Seq<char>) -> Chain {
    choose|chain: Chain| chain.text() == name
}

/// A name names one chain only.
pub proof fn lemma_chain_named(chain: Chain)
    ensures
        names_a_chain(chain.text()),
        chain_named(chain.text()) == chain,
{
    law_chain_names_are_distinct(chain_named(chain.text()), chain);
}

impl LoadView {
    /// Nothing is loaded yet of the chains in the chain table.
    pub open spec fn start(table: Seq<(i64, Seq<char>)>) -> LoadView {
        LoadView { cache: CacheView::empty(), left: table, current: None }
    }

    /// The load is not stopped by a name in the chain table that is not the name of a chain.
    pub open spec fn can_step(self) -> bool {
        self.current is None && self.left.len() > 0 ==> names_a_chain(self.left[0].1)
    }

    /// The load with the next chain begun, if none is being loaded and one is left.
    pub open spec fn begun(self) -> LoadView {
        if self.current is None && self.left.len() > 0 {
            LoadView {
                cache: self.cache,
                left: self.left.drop_first(),
                current: Some(
                    CurrentView {
                        chain_id: self.left[0].0,
                        chain: chain_named(self.left[0].1),
                        loaded: LoaderView::fresh(),
                        complete: false,
                    },
                ),
            }
        } else {
            self
        }
    }

    /// What is to be fetched for the chain that is being loaded.
    pub open spec fn step(self) -> LoadStep {
        match self.current {
            Some(current) => if current.complete {
                LoadStep::Trades { chain_id: current.chain_id }
            } else {
                LoadStep::Tokens {
                    chain_id: current.chain_id,
                    after: current.loaded.last_db_id,
                }
            },
            None => LoadStep::Finished,
        }
    }

    /// No chain is being loaded and none is left.
    pub open spec fn finished(self) -> bool {
        self.current is None && self.left.len() == 0
    }

    /// The load once a batch of tokens came in. A batch that is not full is the last one.
    pub open spec fn with_tokens(self, batch: Seq<(TokenRow, Address)>) -> LoadView {
        let current = self.current->0;
        LoadView {
            current: Some(
                CurrentView {
                    loaded: current.loaded.load(batch, current.chain),
                    complete: batch.len() < LOAD_BATCH_SIZE,
                    ..current
                },
            ),
            ..self
        }
    }

    /// The load once the last trades came in: the chain is done.
    pub open spec fn with_trades(self, last_traded: Seq<(i64, Timestamp)>) -> LoadView {
        let current = self.current->0;
        LoadView {
            cache: self.cache.with_chain(
                current.chain_id,
                current.chain,
                current.loaded.finish(last_traded),
                current.loaded.max_modified_ts,
            ),
            left: self.left,
            current: None,
        }
    }
}

/// A chain that is being loaded.
struct Current {
    chain_id: i64,
    chain: Chain,
    loader: ChainLoader,
    complete: bool,
}

/// A cache while it is being loaded.
pub struct CacheLoad {
    cache: TokenCache,
    /// The chains that are left, the next one last.
    left: Vec<(i64, String)>,
    current: Option<Current>,
}

/// Rows of the chain table as database id and name.
pub open spec fn chain_views(rows: Seq<(i64, String)>) -> Seq<(i64, Seq<char>)> {
    rows.map_values(|row: (i64, String)| (row.0, row.1@))
}

impl View for CacheLoad {
    type V = LoadView;

    closed spec fn view(&self) -> LoadView {
        LoadView {
            cache: self.cache@,
            left: chain_views(self.left@.reverse()),
            current: match self.current {
                Some(current) => Some(
                    CurrentView {
                        chain_id: current.chain_id,
                        chain: current.chain,
                        loaded: current.loader@,
                        complete: current.complete,
                    },
                ),
                None => None,
            },
        }
    }
}

impl CacheLoad {
    /// The loaded chains are well-formed, and so is the one that is being loaded.
    pub closed spec fn wf(self) -> bool {
        &&& self.cache.wf()
        &&& self.current matches Some(current) ==> current.loader.wf() && current.loader.chain()
            == current.chain
    }

    /// Starts to load the chains of the chain table.
    pub fn new(chain_rows: Vec<(i64, String)>) -> (load: CacheLoad)
        ensures
            load.wf(),
            load@ == LoadView::start(chain_views(chain_rows@)),
    {
        let ghost rows = chain_rows@;
        let mut forward = chain_rows;
        let mut left: Vec<(i64, String)> = Vec::new();
        while forward.len() > 0
            invariant
                forward@ + left@.reverse() == rows,
            decreases forward@.len(),
        {
            let ghost before = forward@;
            let ghost turned = left@.reverse();
            let row = forward.pop().unwrap();
            left.push(row);
            assert(left@.reverse() =~= seq![row] + turned);
            assert(forward@ + (seq![row] + turned) =~= before + turned);
        }
        assert(left@.reverse() =~= rows);
        CacheLoad { cache: TokenCache::new(), left, current: None }
    }

    /// What is to be fetched next. Once a chain is done, the next one is begun; a name in the
    /// chain table that is not the name of a chain stops the load there for good.
    pub fn step(&mut self) -> (step: Result<LoadStep, StorageError>)
        requires
            old(self).wf(),
        ensures
            final(self).wf(),
            match step {
                Ok(step) => old(self)@.can_step() && final(self)@ == old(self)@.begun() && step
                    == old(self)@.begun().step(),
                Err(error) => {
                    &&& !old(self)@.can_step()
                    &&& final(self)@ == old(self)@
                    &&& error.is_unexpected(
                        "Unknown chain in chain table: "@ + old(self)@.left[0].1,
                    )
                },
            },
    {
        if let Some(current) = &self.current {
            return Ok(
                if current.complete {
                    LoadStep::Trades { chain_id: current.chain_id }
                } else {
                    LoadStep::Tokens {
                        chain_id: current.chain_id,
                        after: current.loader.last_db_id(),
                    }
                },
            );
        }
        if self.left.len() == 0 {
            return Ok(LoadStep::Finished);
        }
        let next: usize = self.left.len() - 1;
        proof {
            let left = self.left@;
            assert(left.reverse()[0] == left[next as int]);
            assert(left.reverse().drop_first() =~= left.drop_last().reverse());
            assert(chain_views(left.reverse()).drop_first() =~= chain_views(
                left.drop_last().reverse(),
            ));
        }
        match chain_of_row(self.left[next].1.as_str()) {
            Ok(chain) => {
                proof {
                    lemma_chain_named(chain);
                }
                let chain_id: i64 = self.left[next].0;
                self.left.pop();
                self.current =
                Some(
                    Current { chain_id, chain, loader: ChainLoader::new(chain), complete: false },
                );
                Ok(LoadStep::Tokens { chain_id, after: i64::MIN })
            },
            Err(error) => Err(error),
        }
    }

    /// The chain that is being loaded and the number of its tokens so far.
    pub fn progress(&self) -> (progress: Option<(Chain, usize)>)
        ensures
            match progress {
                Some((chain, count)) => self@.current matches Some(current) && chain
                    == current.chain && count == current.loaded.store.tokens.len(),
                None => self@.current is None,
            },
    {
        match &self.current {
            Some(current) => Some((current.chain, current.loader.len())),
            None => None,
        }
    }

    /// Whether the chain that is being loaded has positions for `count` tokens more.
    pub fn has_room(&self, count: usize) -> (room: bool)
        ensures
            room == (self@.current matches Some(current) && current.loaded.store.tokens.len()
                + count <= MAX_POSITIONS),
    {
        match &self.current {
            Some(current) => current.loader.len() as u64 <= MAX_POSITIONS && count as u64
                <= MAX_POSITIONS - current.loader.len() as u64,
            None => false,
        }
    }

    /// Takes a batch of tokens in.
    pub fn take_tokens(&mut self, batch: &[(TokenRow, Address)])
        requires
            old(self).wf(),
            old(self)@.current is Some,
            old(self)@.with_tokens(batch@).current->0.loaded.store.tokens.len() <= MAX_POSITIONS,
        ensures
            final(self).wf(),
            final(self)@ == old(self)@.with_tokens(batch@),
    {
        match self.current.take() {
            Some(current) => {
                let mut current = current;
                let more: bool = current.loader.load_batch(batch);
                current.complete = !more;
                self.current = Some(current);
            },
            None => {},
        }
    }

    /// Takes the last trades in, and with them enters the chain into the cache.
    pub fn take_trades(&mut self, last_traded: &[(i64, Timestamp)])
        requires
            old(self).wf(),
            old(self)@.current is Some,
        ensures
            final(self).wf(),
            final(self)@ == old(self)@.with_trades(last_traded@),
    {
        match self.current.take() {
            Some(current) => {
                let Current { chain_id, chain, loader, complete: _ } = current;
                let (store, max_modified_ts) = loader.finish(last_traded);
                self.cache.add_chain(chain_id, chain, store, max_modified_ts);
            },
            None => {},
        }
    }

    /// The loaded cache.
    pub fn into_cache(self) -> (cache: TokenCache)
        requires
            self.wf(),
            self@.finished(),
        ensures
            cache.wf(),
            cache@ == self@.cache,
    {
        self.cache
    }
}

} // verus!
