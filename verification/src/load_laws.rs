//! What holds of every load, however the rows are cut into batches.

use crate::cache::CacheView;
use crate::cache_laws::{law_covered_table_refreshes_nothing, modified_after};
use crate::chain::Chain;
use crate::load::{chain_named, chain_views, names_a_chain, LoadStep, LoadView};
use crate::loader::{lemma_load_wf, LoaderView, LOAD_BATCH_SIZE};
use crate::model::{lemma_place_unique, lemma_position, StoreView, NEVER_TRADED};
use crate::timestamp::{representable, Timestamp};
use crate::token::{Address, TokenRow};
use vstd::prelude::*;

verus! {

/// How the rows are cut into batches does not matter.
pub proof fn law_batches_do_not_matter(
    start: LoaderView,
    first: Seq<(TokenRow, Address)>,
    second: Seq<(TokenRow, Address)>,
    chain: Chain,
)
    ensures
        start.load(first + second, chain) == start.load(first, chain).load(second, chain),
    decreases second.len(),
{
    if second.len() == 0 {
        assert(first + second =~= first);
    } else {
        law_batches_do_not_matter(start, first, second.drop_last(), chain);
        assert((first + second).drop_last() =~= first + second.drop_last());
        assert((first + second).last() == second.last());
    }
}

/// A batch makes the store longer by no more tokens than it has rows, so room for as many is
/// enough.
pub proof fn law_batch_adds_at_most_its_rows(
    start: LoaderView,
    rows: Seq<(TokenRow, Address)>,
    chain: Chain,
)
    requires
        start.store.wf(),
    ensures
        start.store.tokens.len() <= start.load(rows, chain).store.tokens.len()
            <= start.store.tokens.len() + rows.len(),
{
    lemma_load_wf(start, rows, chain);
}

/// Whatever rows are loaded, in whatever order, the store is in the order of the database ids.
pub proof fn law_loaded_store_is_in_id_order(rows: Seq<(TokenRow, Address)>, chain: Chain)
    ensures
        LoaderView::fresh().load(rows, chain).store.wf(),
{
    lemma_load_wf(LoaderView::fresh(), rows, chain);
}

/// The rows stand in ascending order of their database ids, and no two are for the same address.
pub open spec fn ascending_rows(rows: Seq<(TokenRow, Address)>) -> bool {
    forall|i: int, j: int|
        #![trigger rows[i], rows[j]]
        0 <= i < j < rows.len() ==> rows[i].0.id < rows[j].0.id && rows[i].1@ != rows[j].1@
}

/// Rows that come in ascending order of their database ids are loaded in that order: the token of
/// row number `i` gets position `i`, has the id of the row, and was never traded so far.
pub proof fn law_rows_load_in_order(rows: Seq<(TokenRow, Address)>, chain: Chain)
    requires
        ascending_rows(rows),
    ensures
        ({
            let loaded = LoaderView::fresh().load(rows, chain);
            &&& loaded.store.wf()
            &&& loaded.store.tokens.len() == rows.len()
            &&& forall|i: int|
                #![trigger loaded.store.tokens[i]]
                #![trigger rows[i]]
                0 <= i < rows.len() ==> {
                    &&& loaded.store.tokens[i] == rows[i].0.model(rows[i].1@, chain)
                    &&& loaded.store.last_traded[i] == NEVER_TRADED
                    &&& loaded.store.ids[i] == Some(rows[i].0.id)
                    &&& loaded.addresses.contains_key(rows[i].0.id)
                    &&& loaded.addresses[rows[i].0.id] == rows[i].1@
                }
            &&& forall|id: i64| #[trigger]
                loaded.addresses.contains_key(id) ==> exists|i: int|
                    0 <= i < rows.len() && (#[trigger] rows[i]).0.id == id && rows[i].1@
                        == loaded.addresses[id]
        }),
    decreases rows.len(),
{
    lemma_load_wf(LoaderView::fresh(), rows, chain);
    if rows.len() > 0 {
        let fewer = rows.drop_last();
        assert forall|i: int| 0 <= i < fewer.len() implies fewer[i] == #[trigger] rows[i] by {}
        assert(ascending_rows(fewer)) by {
            assert forall|i: int, j: int|
                #![trigger fewer[i], fewer[j]]
                0 <= i < j < fewer.len() implies fewer[i].0.id < fewer[j].0.id && fewer[i].1@
                != fewer[j].1@ by {
                assert(fewer[i] == rows[i]);
                assert(fewer[j] == rows[j]);
            }
        }
        law_rows_load_in_order(fewer, chain);
        let before = LoaderView::fresh().load(fewer, chain);
        let loaded = LoaderView::fresh().load(rows, chain);
        let n = rows.len() - 1;
        let (row, address) = rows[n];
        let token = row.model(address@, chain);
        assert forall|p: int| !before.store.holds(address@, p) by {
            if before.store.holds(address@, p) {
                assert(before.store.tokens[p] == fewer[p].0.model(fewer[p].1@, chain));
                assert(rows[p].1@ != rows[n].1@);
            }
        }
        let free = before.store.released(row.id);
        assert forall|p: int| 0 <= p < n implies #[trigger] before.store.ids[p] == Some(
            rows[p].0.id,
        ) && rows[p].0.id < row.id by {
            assert(fewer[p] == rows[p]);
            assert(rows[p].0.id < rows[n].0.id);
        }
        assert(free.ids =~= before.store.ids);
        assert(free =~= before.store);
        lemma_place_unique(free.ids, row.id, n);
        assert(loaded.store == before.store.placed(row.id, token, NEVER_TRADED));
        assert forall|i: int|
            #![trigger loaded.store.tokens[i]]
            #![trigger rows[i]]
            0 <= i < rows.len() implies {
            &&& loaded.store.tokens[i] == rows[i].0.model(rows[i].1@, chain)
            &&& loaded.store.last_traded[i] == NEVER_TRADED
            &&& loaded.store.ids[i] == Some(rows[i].0.id)
            &&& loaded.addresses.contains_key(rows[i].0.id)
            &&& loaded.addresses[rows[i].0.id] == rows[i].1@
        } by {
            if i < n {
                assert(fewer[i] == rows[i]);
                assert(before.store.tokens[i] == fewer[i].0.model(fewer[i].1@, chain));
                assert(rows[i].0.id != rows[n].0.id);
            }
        }
        assert forall|id: i64| #[trigger] loaded.addresses.contains_key(id) implies exists|i: int|
            0 <= i < rows.len() && (#[trigger] rows[i]).0.id == id && rows[i].1@
                == loaded.addresses[id] by {
            if id == row.id {
                assert(rows[n].0.id == id);
            } else {
                assert(before.addresses.contains_key(id));
                let i = choose|i: int|
                    0 <= i < fewer.len() && (#[trigger] fewer[i]).0.id == id && fewer[i].1@
                        == before.addresses[id];
                assert(rows[i] == fewer[i]);
            }
        }
    }
}

/// The marker that a load leaves is no earlier than the modification of any row, and does not run
/// ahead of what was seen.
pub proof fn law_load_marker_covers_what_was_seen(
    start: LoaderView,
    rows: Seq<(TokenRow, Address)>,
    chain: Chain,
)
    ensures
        start.max_modified_ts.at_or_before(start.load(rows, chain).max_modified_ts),
        forall|i: int|
            #![trigger rows[i]]
            0 <= i < rows.len() ==> rows[i].0.modified_ts.at_or_before(
                start.load(rows, chain).max_modified_ts,
            ),
        start.load(rows, chain).max_modified_ts == start.max_modified_ts || exists|i: int|
            #![trigger rows[i]]
            0 <= i < rows.len() && rows[i].0.modified_ts == start.load(
                rows,
                chain,
            ).max_modified_ts,
    decreases rows.len(),
{
    if rows.len() > 0 {
        let fewer = rows.drop_last();
        law_load_marker_covers_what_was_seen(start, fewer, chain);
        assert forall|i: int| #![trigger rows[i]] 0 <= i < rows.len() - 1 implies rows[i]
            == fewer[i] by {}
        let before = start.load(fewer, chain).max_modified_ts;
        if before != start.max_modified_ts {
            let i = choose|i: int|
                #![trigger fewer[i]]
                0 <= i < fewer.len() && fewer[i].0.modified_ts == before;
            assert(rows[i] == fewer[i]);
        }
        assert(rows[rows.len() - 1] == rows.last());
    }
}

/// The next batch starts behind the last row that came in.
pub proof fn law_next_batch_starts_behind_the_last_row(
    start: LoaderView,
    rows: Seq<(TokenRow, Address)>,
    chain: Chain,
)
    ensures
        start.load(rows, chain).last_db_id == (if rows.len() == 0 {
            start.last_db_id
        } else {
            rows.last().0.id
        }),
{
}

/// Each last trade reaches the token with its database id, and no other token: tokens and ids
/// stay as they are, and a token without a trade keeps its last-traded time.
pub proof fn law_last_trades_reach_their_tokens(
    loaded: LoaderView,
    last_traded: Seq<(i64, Timestamp)>,
    id: i64,
)
    requires
        loaded.store.wf(),
        forall|i: int|
            #![trigger last_traded[i]]
            0 <= i < last_traded.len() ==> i64::MIN <= last_traded[i].1.micros() <= i64::MAX,
        forall|a: i64, b: i64| #[trigger]
            loaded.addresses.contains_key(a) && #[trigger] loaded.addresses.contains_key(b)
                && loaded.addresses[a] == loaded.addresses[b] ==> a == b,
        loaded.addresses.contains_key(id),
        loaded.store.has(loaded.addresses[id]),
    ensures
        ({
            let p = loaded.store.position(loaded.addresses[id]);
            let finished = loaded.finish(last_traded);
            &&& finished.tokens == loaded.store.tokens
            &&& finished.ids == loaded.store.ids
            &&& finished.last_traded.len() == loaded.store.last_traded.len()
            &&& finished.last_traded[p] == last_trade(
                last_traded,
                id,
                loaded.store.last_traded[p] as int,
            )
        }),
    decreases last_traded.len(),
{
    let address = loaded.addresses[id];
    let p = loaded.store.position(address);
    assert(loaded.store.holds(address, p));
    if last_traded.len() > 0 {
        let fewer = last_traded.drop_last();
        assert forall|i: int| #![trigger fewer[i]] 0 <= i < fewer.len() implies i64::MIN
            <= fewer[i].1.micros() <= i64::MAX by {
            assert(fewer[i] == last_traded[i]);
        }
        law_last_trades_reach_their_tokens(loaded, fewer, id);
        let before = loaded.finish(fewer);
        let last = last_traded[last_traded.len() - 1];
        assert(last == last_traded.last());
        assert(before.wf());
        assert(before.holds(address, p));
        lemma_position(before, address, p);
        if loaded.addresses.contains_key(last.0) {
            let other = loaded.addresses[last.0];
            if before.has(other) {
                lemma_position(before, other, before.position(other));
                assert(before.holds(other, before.position(other)));
            }
        }
    }
}

/// The time that `last_traded` gives for the token with this database id, `otherwise` if none.
pub open spec fn last_trade(last_traded: Seq<(i64, Timestamp)>, id: i64, otherwise: int) -> int
    decreases last_traded.len(),
{
    if last_traded.len() == 0 {
        otherwise
    } else if last_traded.last().0 == id {
        last_traded.last().1.micros()
    } else {
        last_trade(last_traded.drop_last(), id, otherwise)
    }
}

/// Batches, one behind the other.
pub open spec fn joined(batches: Seq<Seq<(TokenRow, Address)>>) -> Seq<(TokenRow, Address)>
    decreases batches.len(),
{
    if batches.len() == 0 {
        Seq::empty()
    } else {
        joined(batches.drop_last()) + batches.last()
    }
}

/// The load once batches of tokens came in, one after the other.
pub open spec fn with_batches(load: LoadView, batches: Seq<Seq<(TokenRow, Address)>>) -> LoadView
    decreases batches.len(),
{
    if batches.len() == 0 {
        load
    } else {
        with_batches(load, batches.drop_last()).with_tokens(batches.last())
    }
}

/// A batch of 500000 rows is followed by another one of the same chain, from behind its last row
/// on; a shorter one is the last one, and the last trades of the chain come next. A load that is
/// at a chain stays at it.
pub proof fn law_what_is_fetched_after_a_batch(load: LoadView, batch: Seq<(TokenRow, Address)>)
    requires
        load.current is Some,
    ensures
        LOAD_BATCH_SIZE == 500_000,
        load.with_tokens(batch).begun() == load.with_tokens(batch),
        batch.len() >= 500_000 ==> load.with_tokens(batch).step() == (LoadStep::Tokens {
            chain_id: load.current->0.chain_id,
            after: batch[batch.len() - 1].0.id,
        }),
        batch.len() < 500_000 ==> load.with_tokens(batch).step() == (LoadStep::Trades {
            chain_id: load.current->0.chain_id,
        }),
        load.with_tokens(batch).cache == load.cache,
        load.with_tokens(batch).left == load.left,
{
    law_next_batch_starts_behind_the_last_row(
        load.current->0.loaded,
        batch,
        load.current->0.chain,
    );
}

/// What is fetched next: of a chain that is being loaded, more tokens from behind the last one,
/// or the last trades once all tokens came in. Once a chain is done, it is the first tokens of
/// the next chain in the chain table, and nothing once there is none left.
pub proof fn law_what_is_fetched_next(load: LoadView)
    ensures
        load.current is Some ==> load.begun() == load && load.can_step(),
        load.current is Some && load.current->0.complete ==> load.begun().step() == (
        LoadStep::Trades { chain_id: load.current->0.chain_id }),
        load.current is Some && !load.current->0.complete ==> load.begun().step() == (
        LoadStep::Tokens {
            chain_id: load.current->0.chain_id,
            after: load.current->0.loaded.last_db_id,
        }),
        load.current is None && load.left.len() == 0 ==> load.begun() == load && load.can_step()
            && load.begun().step() is Finished && load.finished(),
        load.current is None && load.left.len() > 0 ==> {
            &&& load.begun().step() == (LoadStep::Tokens {
                chain_id: load.left[0].0,
                after: i64::MIN,
            })
            &&& load.begun().left == load.left.drop_first()
            &&& load.begun().cache == load.cache
            &&& load.can_step() <==> exists|chain: Chain| chain.text() == load.left[0].1
            &&& load.can_step() ==> load.begun().current->0.chain.text() == load.left[0].1
            &&& load.begun().current->0.loaded.store.tokens.len() == 0
            &&& !load.finished()
        },
{
}

/// The rows of a chain in the database, page by page: page number `k` holds the 500000 rows
/// behind the pages before it, or as many as there are.
pub open spec fn page_of_rows(
    rows: Seq<(TokenRow, Address)>,
    k: nat,
) -> Seq<(TokenRow, Address)> {
    if (k + 1) * 500_000int <= rows.len() {
        rows.subrange(k * 500_000int, (k + 1) * 500_000int)
    } else {
        rows.skip(k * 500_000int)
    }
}

/// The load once the first `count` pages of a chain's rows came in.
pub open spec fn with_pages(load: LoadView, rows: Seq<(TokenRow, Address)>, count: nat) -> LoadView
    decreases count,
{
    if count == 0 {
        load
    } else {
        with_pages(load, rows, (count - 1) as nat).with_tokens(
            page_of_rows(rows, (count - 1) as nat),
        )
    }
}

/// A chain is read to its end. As long as there are full pages, the next one is asked for, from
/// behind the last row that came in; when the last trades are asked for, every row of the chain
/// has come in.
pub proof fn law_chain_is_read_to_its_end(
    load: LoadView,
    rows: Seq<(TokenRow, Address)>,
    count: nat,
)
    requires
        load.current is Some,
        load.current->0.loaded == LoaderView::fresh(),
        !load.current->0.complete,
        count * 500_000int <= rows.len() + 500_000,
    ensures
        ({
            let now = with_pages(load, rows, count);
            let current = load.current->0;
            &&& now.current is Some
            &&& now.current->0.chain_id == current.chain_id
            &&& now.current->0.chain == current.chain
            &&& count * 500_000int <= rows.len() ==> {
                &&& now.current->0.loaded == LoaderView::fresh().load(
                    rows.take(count * 500_000int),
                    current.chain,
                )
                &&& now.step() == (LoadStep::Tokens {
                    chain_id: current.chain_id,
                    after: if count == 0 {
                        i64::MIN
                    } else {
                        rows[count * 500_000int - 1].0.id
                    },
                })
            }
            &&& count * 500_000int > rows.len() ==> {
                &&& now.current->0.loaded == LoaderView::fresh().load(rows, current.chain)
                &&& now.step() == (LoadStep::Trades { chain_id: current.chain_id })
            }
        }),
    decreases count,
{
    let chain = load.current->0.chain;
    if count == 0 {
        assert(rows.take(0) =~= Seq::empty());
    } else {
        let k = (count - 1) as nat;
        law_chain_is_read_to_its_end(load, rows, k);
        let before = with_pages(load, rows, k);
        let page = page_of_rows(rows, k);
        assert(k * 500_000int <= rows.len());
        law_what_is_fetched_after_a_batch(before, page);
        law_batches_do_not_matter(LoaderView::fresh(), rows.take(k * 500_000int), page, chain);
        if count * 500_000int <= rows.len() {
            assert(rows.take(k * 500_000int) + page =~= rows.take(count * 500_000int));
        } else {
            assert(rows.take(k * 500_000int) + page =~= rows);
        }
    }
}

/// Before a load there is nothing.
pub proof fn law_a_load_starts_from_nothing(chains: Seq<(i64, Seq<char>)>)
    ensures
        CacheView::empty().stores == Map::<Chain, StoreView>::empty(),
        CacheView::empty().chain_ids == Map::<i64, Chain>::empty(),
        LoadView::start(chains).cache == CacheView::empty(),
        LoadView::start(chains).left == chains,
        LoadView::start(chains).current is None,
        LoaderView::fresh().store.tokens.len() == 0,
        LoaderView::fresh().store.last_traded.len() == 0,
        LoaderView::fresh().store.ids.len() == 0,
        LoaderView::fresh().addresses == Map::<i64, Seq<u8>>::empty(),
        LoaderView::fresh().last_db_id == i64::MIN,
{
}

/// Every row that is loaded is written, one after the other, and its id leads to its address,
/// unless a later row has the same id.
pub proof fn law_every_row_is_loaded(
    start: LoaderView,
    rows: Seq<(TokenRow, Address)>,
    chain: Chain,
)
    ensures
        start.load(rows, chain).store == start.store.upsert_rows(
            rows.map_values(
                |row: (TokenRow, Address)| (row.0.id, row.0.model(row.1@, chain)),
            ),
        ),
        forall|i: int|
            #![trigger rows[i]]
            0 <= i < rows.len() && (forall|j: int|
                #![trigger rows[j]]
                i < j < rows.len() ==> rows[j].0.id != rows[i].0.id) ==> start.load(
                rows,
                chain,
            ).addresses.contains_key(rows[i].0.id) && start.load(
                rows,
                chain,
            ).addresses[rows[i].0.id] == rows[i].1@,
    decreases rows.len(),
{
    let writes = rows.map_values(
        |row: (TokenRow, Address)| (row.0.id, row.0.model(row.1@, chain)),
    );
    if rows.len() == 0 {
        assert(writes =~= Seq::empty());
    } else {
        let fewer = rows.drop_last();
        law_every_row_is_loaded(start, fewer, chain);
        assert(writes.drop_last() =~= fewer.map_values(
            |row: (TokenRow, Address)| (row.0.id, row.0.model(row.1@, chain)),
        ));
        assert forall|i: int|
            #![trigger rows[i]]
            0 <= i < rows.len() && (forall|j: int|
                #![trigger rows[j]]
                i < j < rows.len() ==> rows[j].0.id != rows[i].0.id) implies start.load(
            rows,
            chain,
        ).addresses.contains_key(rows[i].0.id) && start.load(
            rows,
            chain,
        ).addresses[rows[i].0.id] == rows[i].1@ by {
            if i < fewer.len() {
                assert(fewer[i] == rows[i]);
                assert forall|j: int| #![trigger fewer[j]] i < j < fewer.len() implies fewer[j].0.id
                    != fewer[i].0.id by {
                    assert(fewer[j] == rows[j]);
                }
                assert(rows[rows.len() - 1].0.id != rows[i].0.id);
            }
        }
    }
}

/// The last of the last trades that lead to an address sets when the token there was last traded;
/// where none leads there, it was last traded when it was before.
pub proof fn law_last_trades_lead_to_addresses(
    loaded: LoaderView,
    last_traded: Seq<(i64, Timestamp)>,
    p: int,
)
    requires
        loaded.store.wf(),
        0 <= p < loaded.store.tokens.len(),
        forall|k: int|
            #![trigger last_traded[k]]
            0 <= k < last_traded.len() ==> representable(
                last_traded[k].1.secs(),
                last_traded[k].1.nanos(),
            ),
    ensures
        ({
            let address = loaded.store.tokens[p].address;
            let finished = loaded.finish(last_traded);
            &&& finished.tokens == loaded.store.tokens
            &&& finished.ids == loaded.store.ids
            &&& finished.last_traded.len() == loaded.store.last_traded.len()
            &&& forall|k: int|
                #![trigger last_traded[k]]
                0 <= k < last_traded.len() && leads_to(loaded, last_traded[k].0, address) && (forall|
                    m: int,
                |
                    #![trigger last_traded[m]]
                    k < m < last_traded.len() ==> !leads_to(loaded, last_traded[m].0, address))
                    ==> finished.last_traded[p] == last_traded[k].1.secs() * 1_000_000
                    + last_traded[k].1.nanos() as int / 1000
            &&& (forall|k: int|
                #![trigger last_traded[k]]
                0 <= k < last_traded.len() ==> !leads_to(loaded, last_traded[k].0, address))
                ==> finished.last_traded[p] == loaded.store.last_traded[p]
        }),
    decreases last_traded.len(),
{
    let address = loaded.store.tokens[p].address;
    if last_traded.len() > 0 {
        let fewer = last_traded.drop_last();
        let n = fewer.len() as int;
        let last = last_traded[n];
        assert forall|k: int| 0 <= k < n implies fewer[k] == #[trigger] last_traded[k] by {}
        assert forall|k: int| #![trigger fewer[k]] 0 <= k < n implies representable(
            fewer[k].1.secs(),
            fewer[k].1.nanos(),
        ) by {
            assert(fewer[k] == last_traded[k]);
        }
        law_last_trades_lead_to_addresses(loaded, fewer, p);
        let before = loaded.finish(fewer);
        let finished = loaded.finish(last_traded);
        assert(before.wf());
        assert(before.holds(address, p));
        lemma_position(before, address, p);
        assert(representable(last.1.secs(), last.1.nanos()));
        if loaded.addresses.contains_key(last.0) && before.has(loaded.addresses[last.0]) {
            let other = loaded.addresses[last.0];
            assert(before.holds(other, before.position(other)));
        }
        assert forall|k: int|
            #![trigger last_traded[k]]
            0 <= k < last_traded.len() && leads_to(loaded, last_traded[k].0, address) && (forall|
                m: int,
            |
                #![trigger last_traded[m]]
                k < m < last_traded.len() ==> !leads_to(loaded, last_traded[m].0, address)) implies finished.last_traded[p]
            == last_traded[k].1.secs() * 1_000_000 + last_traded[k].1.nanos() as int / 1000 by {
            if k < n {
                assert(fewer[k] == last_traded[k]);
                assert(!leads_to(loaded, last_traded[n].0, address));
                assert forall|m: int| #![trigger fewer[m]] k < m < n implies !leads_to(
                    loaded,
                    fewer[m].0,
                    address,
                ) by {
                    assert(fewer[m] == last_traded[m]);
                }
            }
        }
        if forall|k: int|
            #![trigger last_traded[k]]
            0 <= k < last_traded.len() ==> !leads_to(loaded, last_traded[k].0, address) {
            assert(!leads_to(loaded, last_traded[n].0, address));
            assert forall|k: int| #![trigger fewer[k]] 0 <= k < n implies !leads_to(
                loaded,
                fewer[k].0,
                address,
            ) by {
                assert(fewer[k] == last_traded[k]);
            }
        }
    }
}

/// The database id is one that a row with this address had.
pub open spec fn leads_to(loaded: LoaderView, id: i64, address: Seq<u8>) -> bool {
    loaded.addresses.contains_key(id) && loaded.addresses[id] == address
}

/// What a chain holds once it was loaded from rows in ascending order of their ids: the token of
/// each row, in row order, under the id of the row. It was last traded when the last trades say;
/// a token of which they say nothing was never traded.
pub proof fn law_what_a_loaded_chain_holds(
    rows: Seq<(TokenRow, Address)>,
    chain: Chain,
    last_traded: Seq<(i64, Timestamp)>,
    i: int,
)
    requires
        ascending_rows(rows),
        forall|k: int|
            #![trigger last_traded[k]]
            0 <= k < last_traded.len() ==> representable(
                last_traded[k].1.secs(),
                last_traded[k].1.nanos(),
            ),
        forall|k: int, m: int|
            #![trigger last_traded[k], last_traded[m]]
            0 <= k < m < last_traded.len() ==> last_traded[k].0 != last_traded[m].0,
        0 <= i < rows.len(),
    ensures
        ({
            let store = LoaderView::fresh().load(rows, chain).finish(last_traded);
            &&& store.tokens.len() == rows.len()
            &&& store.tokens[i] == rows[i].0.model(rows[i].1@, chain)
            &&& store.ids[i] == Some(rows[i].0.id)
            &&& forall|k: int|
                #![trigger last_traded[k]]
                0 <= k < last_traded.len() && last_traded[k].0 == rows[i].0.id
                    ==> store.last_traded[i] == last_traded[k].1.secs() * 1_000_000
                    + last_traded[k].1.nanos() as int / 1000
            &&& (forall|k: int|
                #![trigger last_traded[k]]
                0 <= k < last_traded.len() ==> last_traded[k].0 != rows[i].0.id)
                ==> store.last_traded[i] == i64::MIN
        }),
{
    let loaded = LoaderView::fresh().load(rows, chain);
    let id = rows[i].0.id;
    law_rows_load_in_order(rows, chain);
    assert(loaded.store.tokens[i].address == rows[i].1@);
    assert(loaded.store.holds(rows[i].1@, i));
    lemma_position(loaded.store, rows[i].1@, i);
    assert forall|k: int| #![trigger last_traded[k]] 0 <= k < last_traded.len() implies i64::MIN
        <= last_traded[k].1.micros() <= i64::MAX by {
        assert(representable(last_traded[k].1.secs(), last_traded[k].1.nanos()));
    }
    assert forall|a: i64, b: i64| #[trigger]
        loaded.addresses.contains_key(a) && #[trigger] loaded.addresses.contains_key(b)
            && loaded.addresses[a] == loaded.addresses[b] implies a == b by {
        let x = choose|x: int|
            0 <= x < rows.len() && (#[trigger] rows[x]).0.id == a && rows[x].1@
                == loaded.addresses[a];
        let y = choose|y: int|
            0 <= y < rows.len() && (#[trigger] rows[y]).0.id == b && rows[y].1@
                == loaded.addresses[b];
        assert(rows[x].1@ == rows[y].1@);
        if x < y {
            assert(rows[x].1@ != rows[y].1@);
        } else if y < x {
            assert(rows[y].1@ != rows[x].1@);
        }
    }
    law_last_trades_reach_their_tokens(loaded, last_traded, id);
    lemma_last_trade(last_traded, id, loaded.store.last_traded[i] as int);
}

/// The last trade of an id that occurs once is the one given for it.
proof fn lemma_last_trade(last_traded: Seq<(i64, Timestamp)>, id: i64, otherwise: int)
    requires
        forall|k: int, m: int|
            #![trigger last_traded[k], last_traded[m]]
            0 <= k < m < last_traded.len() ==> last_traded[k].0 != last_traded[m].0,
    ensures
        forall|k: int|
            #![trigger last_traded[k]]
            0 <= k < last_traded.len() && last_traded[k].0 == id ==> last_trade(
                last_traded,
                id,
                otherwise,
            ) == last_traded[k].1.micros(),
        (forall|k: int|
            #![trigger last_traded[k]]
            0 <= k < last_traded.len() ==> last_traded[k].0 != id) ==> last_trade(
            last_traded,
            id,
            otherwise,
        ) == otherwise,
    decreases last_traded.len(),
{
    if last_traded.len() > 0 {
        let fewer = last_traded.drop_last();
        let last = last_traded[last_traded.len() - 1];
        assert forall|k: int, m: int|
            #![trigger fewer[k], fewer[m]]
            0 <= k < m < fewer.len() implies fewer[k].0 != fewer[m].0 by {
            assert(fewer[k] == last_traded[k]);
            assert(fewer[m] == last_traded[m]);
        }
        lemma_last_trade(fewer, id, otherwise);
        assert forall|k: int|
            #![trigger last_traded[k]]
            0 <= k < last_traded.len() && last_traded[k].0 == id implies last_trade(
            last_traded,
            id,
            otherwise,
        ) == last_traded[k].1.micros() by {
            if k < fewer.len() {
                assert(fewer[k] == last_traded[k]);
                assert(last_traded[k].0 != last.0);
            }
        }
        if forall|k: int|
            #![trigger last_traded[k]]
            0 <= k < last_traded.len() ==> last_traded[k].0 != id {
            assert forall|k: int| #![trigger fewer[k]] 0 <= k < fewer.len() implies fewer[k].0
                != id by {
                assert(fewer[k] == last_traded[k]);
            }
            assert(last.0 != id);
        }
    }
}

/// Rows of the chain table are looked at one by one.
pub proof fn law_chain_rows_are_looked_at_one_by_one(rows: Seq<(i64, String)>)
    ensures
        chain_views(rows).len() == rows.len(),
        forall|i: int|
            #![trigger chain_views(rows)[i]]
            0 <= i < rows.len() ==> chain_views(rows)[i].0 == rows[i].0 && chain_views(rows)[i].1
                == rows[i].1@,
{
}

/// What the database holds of a chain.
pub struct ChainTable {
    pub chain_id: i64,
    pub chain: Chain,
    pub rows: Seq<(TokenRow, Address)>,
    pub last_traded: Seq<(i64, Timestamp)>,
}

/// The cache once one chain more was loaded.
pub open spec fn with_table(cache: CacheView, table: ChainTable) -> CacheView {
    let loaded = LoaderView::fresh().load(table.rows, table.chain);
    cache.with_chain(
        table.chain_id,
        table.chain,
        loaded.finish(table.last_traded),
        loaded.max_modified_ts,
    )
}

/// A chain is loaded as a whole, however its rows were cut into batches.
pub proof fn law_chain_loads_as_a_whole(
    load: LoadView,
    batches: Seq<Seq<(TokenRow, Address)>>,
    last_traded: Seq<(i64, Timestamp)>,
)
    requires
        load.current is None,
        load.left.len() > 0,
    ensures
        with_batches(load.begun(), batches).with_trades(last_traded) == (LoadView {
            cache: with_table(
                load.cache,
                ChainTable {
                    chain_id: load.left[0].0,
                    chain: chain_named(load.left[0].1),
                    rows: joined(batches),
                    last_traded,
                },
            ),
            left: load.left.drop_first(),
            current: None,
        }),
{
    lemma_with_batches(load.begun(), batches);
}

proof fn lemma_with_batches(load: LoadView, batches: Seq<Seq<(TokenRow, Address)>>)
    requires
        load.current is Some,
    ensures
        ({
            let after = with_batches(load, batches);
            let current = load.current->0;
            &&& after.cache == load.cache
            &&& after.left == load.left
            &&& after.current is Some
            &&& after.current->0.chain_id == current.chain_id
            &&& after.current->0.chain == current.chain
            &&& after.current->0.loaded == current.loaded.load(joined(batches), current.chain)
        }),
    decreases batches.len(),
{
    if batches.len() > 0 {
        lemma_with_batches(load, batches.drop_last());
        law_batches_do_not_matter(
            load.current->0.loaded,
            joined(batches.drop_last()),
            batches.last(),
            load.current->0.chain,
        );
    }
}

/// The cache once chains were loaded, one after the other.
pub open spec fn with_tables(cache: CacheView, tables: Seq<ChainTable>) -> CacheView
    decreases tables.len(),
{
    if tables.len() == 0 {
        cache
    } else {
        with_table(with_tables(cache, tables.drop_last()), tables.last())
    }
}

/// The load once every chain of the chain table came in, each in batches and with its last
/// trades.
pub open spec fn with_all(
    load: LoadView,
    fetched: Seq<(Seq<Seq<(TokenRow, Address)>>, Seq<(i64, Timestamp)>)>,
) -> LoadView
    decreases fetched.len(),
{
    if fetched.len() == 0 {
        load
    } else {
        let before = with_all(load, fetched.drop_last());
        with_batches(before.begun(), fetched.last().0).with_trades(fetched.last().1)
    }
}

/// What the chain table and what was fetched for its chains say together.
pub open spec fn tables_of(
    chains: Seq<(i64, Seq<char>)>,
    fetched: Seq<(Seq<Seq<(TokenRow, Address)>>, Seq<(i64, Timestamp)>)>,
) -> Seq<ChainTable> {
    Seq::new(
        fetched.len(),
        |i: int|
            ChainTable {
                chain_id: chains[i].0,
                chain: chain_named(chains[i].1),
                rows: joined(fetched[i].0),
                last_traded: fetched[i].1,
            },
    )
}

/// A load of the whole chain table is finished, and gives the cache of what the database holds. It
/// goes on from chain to chain as long as the next name is the name of one, and no further.
pub proof fn law_whole_load(
    chains: Seq<(i64, Seq<char>)>,
    fetched: Seq<(Seq<Seq<(TokenRow, Address)>>, Seq<(i64, Timestamp)>)>,
)
    requires
        fetched.len() <= chains.len(),
    ensures
        with_all(LoadView::start(chains), fetched) == (LoadView {
            cache: with_tables(CacheView::empty(), tables_of(chains, fetched)),
            left: chains.skip(fetched.len() as int),
            current: None,
        }),
        fetched.len() == chains.len() ==> with_all(LoadView::start(chains), fetched).finished(),
        fetched.len() < chains.len() ==> (with_all(LoadView::start(chains), fetched).can_step()
            <==> names_a_chain(chains[fetched.len() as int].1)),
    decreases fetched.len(),
{
    if fetched.len() == 0 {
        assert(chains.skip(0) =~= chains);
        assert(tables_of(chains, fetched) =~= Seq::empty());
    } else {
        let fewer = fetched.drop_last();
        let n = fewer.len() as int;
        law_whole_load(chains, fewer);
        let before = with_all(LoadView::start(chains), fewer);
        law_chain_loads_as_a_whole(before, fetched.last().0, fetched.last().1);
        assert(tables_of(chains, fetched).drop_last() =~= tables_of(chains, fewer));
        assert(chains.skip(n).drop_first() =~= chains.skip(n + 1));
        assert(chains.skip(n)[0] == chains[n]);
    }
}

/// A load that is stopped by a name that is not the name of a chain is not finished.
pub proof fn law_stopped_load_is_never_finished(load: LoadView)
    requires
        !load.can_step(),
    ensures
        !load.finished(),
{
}

/// A load gives exactly the chains of the chain table, in good order; its marker covers every row
/// that came in and does not run ahead of what was seen.
pub proof fn law_load_gives_the_chains_of_the_table(tables: Seq<ChainTable>)
    ensures
        ({
            let cache = with_tables(CacheView::empty(), tables);
            &&& forall|chain: Chain| #[trigger]
                cache.stores.contains_key(chain) <==> exists|i: int|
                    0 <= i < tables.len() && (#[trigger] tables[i]).chain == chain
            &&& forall|id: i64| #[trigger]
                cache.chain_ids.contains_key(id) <==> exists|i: int|
                    0 <= i < tables.len() && (#[trigger] tables[i]).chain_id == id
            &&& forall|chain: Chain| #[trigger]
                cache.stores.contains_key(chain) ==> cache.stores[chain].wf()
            &&& forall|i: int, k: int|
                #![trigger tables[i].rows[k]]
                0 <= i < tables.len() && 0 <= k < tables[i].rows.len()
                    ==> tables[i].rows[k].0.modified_ts.at_or_before(cache.last_sync)
            &&& cache.last_sync == Timestamp::unix_epoch() || exists|i: int, k: int|
                #![trigger tables[i].rows[k]]
                0 <= i < tables.len() && 0 <= k < tables[i].rows.len()
                    && tables[i].rows[k].0.modified_ts == cache.last_sync
        }),
    decreases tables.len(),
{
    let cache = with_tables(CacheView::empty(), tables);
    if tables.len() > 0 {
        let fewer = tables.drop_last();
        let n = tables.len() - 1;
        let table = tables[n];
        let before = with_tables(CacheView::empty(), fewer);
        let loaded = LoaderView::fresh().load(table.rows, table.chain);
        law_load_gives_the_chains_of_the_table(fewer);
        law_load_marker_covers_what_was_seen(LoaderView::fresh(), table.rows, table.chain);
        lemma_load_wf(LoaderView::fresh(), table.rows, table.chain);
        lemma_finish_wf(loaded, table.last_traded);
        assert forall|i: int| 0 <= i < n implies fewer[i] == #[trigger] tables[i] by {}
        assert forall|chain: Chain| #[trigger] cache.stores.contains_key(chain) <==> exists|i: int|
            0 <= i < tables.len() && (#[trigger] tables[i]).chain == chain by {
            if before.stores.contains_key(chain) {
                let i = choose|i: int| 0 <= i < fewer.len() && (#[trigger] fewer[i]).chain == chain;
                assert(tables[i].chain == chain);
            }
            if chain == table.chain {
                assert(tables[n].chain == chain);
            }
            if exists|i: int| 0 <= i < tables.len() && (#[trigger] tables[i]).chain == chain {
                let i = choose|i: int|
                    0 <= i < tables.len() && (#[trigger] tables[i]).chain == chain;
                if i < n {
                    assert(fewer[i].chain == chain);
                }
            }
        }
        assert forall|id: i64| #[trigger] cache.chain_ids.contains_key(id) <==> exists|i: int|
            0 <= i < tables.len() && (#[trigger] tables[i]).chain_id == id by {
            if before.chain_ids.contains_key(id) {
                let i = choose|i: int|
                    0 <= i < fewer.len() && (#[trigger] fewer[i]).chain_id == id;
                assert(tables[i].chain_id == id);
            }
            if id == table.chain_id {
                assert(tables[n].chain_id == id);
            }
            if exists|i: int| 0 <= i < tables.len() && (#[trigger] tables[i]).chain_id == id {
                let i = choose|i: int|
                    0 <= i < tables.len() && (#[trigger] tables[i]).chain_id == id;
                if i < n {
                    assert(fewer[i].chain_id == id);
                }
            }
        }
        assert forall|i: int, k: int|
            #![trigger tables[i].rows[k]]
            0 <= i < tables.len() && 0 <= k < tables[i].rows.len() implies tables[i].rows[k].0.modified_ts.at_or_before(
            cache.last_sync,
        ) by {
            if i < n {
                assert(fewer[i] == tables[i]);
                assert(fewer[i].rows[k].0.modified_ts.at_or_before(before.last_sync));
            }
        }
        if cache.last_sync == before.last_sync {
            if before.last_sync != Timestamp::unix_epoch() {
                let (i, k) = choose|i: int, k: int|
                    #![trigger fewer[i].rows[k]]
                    0 <= i < fewer.len() && 0 <= k < fewer[i].rows.len()
                        && fewer[i].rows[k].0.modified_ts == before.last_sync;
                assert(tables[i].rows[k].0.modified_ts == cache.last_sync);
            }
        } else if loaded.max_modified_ts != Timestamp::unix_epoch() {
            let k = choose|k: int|
                #![trigger table.rows[k]]
                0 <= k < table.rows.len() && table.rows[k].0.modified_ts == loaded.max_modified_ts;
            assert(tables[n].rows[k].0.modified_ts == cache.last_sync);
        }
    }
}

/// Each chain is loaded from what the database holds of it: from the last entry in the chain
/// table, should it have several.
pub proof fn law_each_chain_is_loaded_from_its_table(tables: Seq<ChainTable>, i: int)
    requires
        0 <= i < tables.len(),
        forall|j: int|
            #![trigger tables[j]]
            i < j < tables.len() ==> tables[j].chain != tables[i].chain && tables[j].chain_id
                != tables[i].chain_id,
    ensures
        ({
            let cache = with_tables(CacheView::empty(), tables);
            &&& cache.chain_ids.contains_key(tables[i].chain_id)
            &&& cache.chain_ids[tables[i].chain_id] == tables[i].chain
            &&& cache.stores.contains_key(tables[i].chain)
            &&& cache.stores[tables[i].chain] == LoaderView::fresh().load(
                tables[i].rows,
                tables[i].chain,
            ).finish(tables[i].last_traded)
        }),
    decreases tables.len(),
{
    let fewer = tables.drop_last();
    if i < tables.len() - 1 {
        assert forall|j: int| #![trigger fewer[j]] i < j < fewer.len() implies fewer[j].chain
            != fewer[i].chain && fewer[j].chain_id != fewer[i].chain_id by {
            assert(fewer[j] == tables[j]);
            assert(fewer[i] == tables[i]);
        }
        law_each_chain_is_loaded_from_its_table(fewer, i);
        assert(fewer[i] == tables[i]);
        assert(tables[tables.len() - 1] == tables.last());
    }
}

/// Setting last trades keeps a store well-formed.
proof fn lemma_finish_wf(loaded: LoaderView, last_traded: Seq<(i64, Timestamp)>)
    requires
        loaded.store.wf(),
    ensures
        loaded.finish(last_traded).wf(),
        loaded.finish(last_traded).tokens == loaded.store.tokens,
    decreases last_traded.len(),
{
    if last_traded.len() > 0 {
        lemma_finish_wf(loaded, last_traded.drop_last());
    }
}

/// After a load, a token table that holds no other rows than those that came in gives no newer
/// row, and refreshing from it changes neither the marker nor any store.
pub proof fn law_unchanged_table_refreshes_nothing_after_a_load(
    tables: Seq<ChainTable>,
    table: Seq<(TokenRow, Address, i64)>,
)
    requires
        forall|j: int|
            #![trigger table[j]]
            0 <= j < table.len() ==> exists|i: int, k: int|
                #![trigger tables[i].rows[k]]
                0 <= i < tables.len() && 0 <= k < tables[i].rows.len() && tables[i].rows[k] == (
                    table[j].0,
                    table[j].1,
                ) && tables[i].chain_id == table[j].2,
    ensures
        ({
            let cache = with_tables(CacheView::empty(), tables);
            &&& modified_after(table, cache.last_sync) == Seq::<(TokenRow, Address, i64)>::empty()
            &&& cache.refresh(cache.last_sync, modified_after(table, cache.last_sync)) == cache
        }),
{
    let cache = with_tables(CacheView::empty(), tables);
    law_load_gives_the_chains_of_the_table(tables);
    assert forall|j: int| #![trigger table[j]] 0 <= j < table.len() implies table[j].0.modified_ts.at_or_before(
        cache.last_sync,
    ) by {
        let (i, k) = choose|i: int, k: int|
            #![trigger tables[i].rows[k]]
            0 <= i < tables.len() && 0 <= k < tables[i].rows.len() && tables[i].rows[k] == (
                table[j].0,
                table[j].1,
            ) && tables[i].chain_id == table[j].2;
        assert(tables[i].rows[k].0.modified_ts.at_or_before(cache.last_sync));
    }
    law_covered_table_refreshes_nothing(cache, table);
}

} // verus!
