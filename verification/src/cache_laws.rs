//! What holds of every cache, whatever was written to it.

use crate::cache::{
    all_of_chain, lemma_row_of_chain, newest, of_chain, refreshed, rows_of_chain, trade_views,
    CacheView,
};
use crate::chain::Chain;
use crate::model::{
    lemma_position, lemma_released, lemma_traded_all_wf, lemma_upsert_all_wf, lemma_upsert_row,
    lemma_upsert_rows, StoreView, MAX_POSITIONS, NEVER_TRADED,
};
use crate::query::{Filter, Page};
use crate::store::token_views;
use crate::store_laws::{
    by_address, in_keeping, last_write, latest_trade, law_known_addresses_are_those_of_the_tokens,
    law_larger_ids_are_appended, law_last_row_wins, law_last_write_wins, law_latest_trade_counts,
    law_new_addresses_are_appended_once_in_order, law_results_are_in_ascending_id_order,
    law_rows_in_keeping_move_nothing, law_rows_leave_other_tokens_alone,
    law_settled_rows_change_nothing, law_store_is_append_only, law_writing_again_changes_nothing,
    law_written_token_is_found, lemma_known_after, new_rows, newcomers, settled,
};
use crate::timestamp::{lemma_same_time, representable, Timestamp};
use crate::token::{law_row_values_are_kept, Address, Token, TokenRow, TokenView};
use vstd::prelude::*;

verus! {

/// A store keeps to the tokens of its chain when tokens of that chain are written.
proof fn lemma_upsert_all_of_chain(
    store: StoreView,
    tokens: Seq<TokenView>,
    chain: Chain,
    overwrite: bool,
)
    requires
        store.wf(),
        all_of_chain(store.tokens, chain),
        all_of_chain(tokens, chain),
    ensures
        all_of_chain(store.upsert_all(tokens, overwrite).tokens, chain),
    decreases tokens.len(),
{
    if tokens.len() > 0 {
        let fewer = tokens.drop_last();
        assert(all_of_chain(fewer, chain)) by {
            assert forall|p: int| #![trigger fewer[p]] 0 <= p < fewer.len() implies fewer[p].chain
                == chain by {
                assert(fewer[p] == tokens[p]);
            }
        }
        lemma_upsert_all_of_chain(store, fewer, chain, overwrite);
        lemma_upsert_all_wf(store, fewer, overwrite);
        let before = store.upsert_all(fewer, overwrite);
        let last = tokens[tokens.len() - 1];
        if before.has(last.address) {
            lemma_position(before, last.address, before.position(last.address));
        }
    }
}

/// Only tokens of the chain are among the tokens of the chain.
proof fn lemma_of_chain(tokens: Seq<TokenView>, chain: Chain)
    ensures
        all_of_chain(of_chain(tokens, chain), chain),
{
    let mine = |t: TokenView| t.chain == chain;
    assert forall|p: int|
        #![trigger of_chain(tokens, chain)[p]]
        0 <= p < of_chain(tokens, chain).len() implies of_chain(tokens, chain)[p].chain
        == chain by {
        tokens.lemma_filter_pred(mine, p);
    }
}

/// Whatever is written, each store keeps to the tokens of its own chain, and no two of them
/// share an address.
pub proof fn law_writes_keep_the_cache_well_formed(
    cache: CacheView,
    tokens: Seq<TokenView>,
    overwrite: bool,
)
    requires
        cache.wf(),
    ensures
        cache.write(tokens, overwrite).wf(),
{
    let after = cache.write(tokens, overwrite);
    assert forall|chain: Chain| #[trigger] after.stores.contains_key(chain) implies
        after.stores[chain].wf() && all_of_chain(after.stores[chain].tokens, chain) by {
        assert(cache.stores.contains_key(chain));
        lemma_of_chain(tokens, chain);
        lemma_upsert_all_wf(cache.stores[chain], of_chain(tokens, chain), overwrite);
        lemma_upsert_all_of_chain(
            cache.stores[chain],
            of_chain(tokens, chain),
            chain,
            overwrite,
        );
    }
}

/// A store keeps to the tokens of its chain when rows of that chain are written.
proof fn lemma_rows_of_chain(store: StoreView, rows: Seq<(i64, TokenView)>, chain: Chain)
    requires
        store.wf(),
        all_of_chain(store.tokens, chain),
    ensures
        store.upsert_rows(rows_of_chain(rows, chain)).wf(),
        all_of_chain(store.upsert_rows(rows_of_chain(rows, chain)).tokens, chain),
    decreases rows.len(),
{
    reveal(Seq::filter);
    if rows.len() > 0 {
        let fewer = rows.drop_last();
        lemma_rows_of_chain(store, fewer, chain);
        let (id, token) = rows.last();
        if token.chain == chain {
            let mine = rows_of_chain(fewer, chain);
            assert(rows_of_chain(rows, chain) =~= mine.push((id, token)));
            assert(mine.push((id, token)).drop_last() =~= mine);
            lemma_row_of_chain(store.upsert_rows(mine), id, token, chain);
        }
    }
}

/// A refresh keeps the cache well-formed: in particular, each store stays in the order of the
/// database ids.
pub proof fn law_refresh_keeps_the_cache_well_formed(
    cache: CacheView,
    since: Timestamp,
    rows: Seq<(TokenRow, Address, i64)>,
)
    requires
        cache.wf(),
    ensures
        cache.refresh(since, rows).wf(),
{
    let after = cache.refresh(since, rows);
    assert forall|chain: Chain| #[trigger] after.stores.contains_key(chain) implies
        after.stores[chain].wf() && all_of_chain(after.stores[chain].tokens, chain) by {
        assert(cache.stores.contains_key(chain));
        lemma_rows_of_chain(cache.stores[chain], refreshed(cache.chain_ids, rows), chain);
    }
}

/// After a refresh, whatever rows it brought, queries give their results in ascending order of
/// the database ids, as far as these are known.
pub proof fn law_refreshed_results_are_in_ascending_id_order(
    cache: CacheView,
    since: Timestamp,
    rows: Seq<(TokenRow, Address, i64)>,
    chain: Chain,
    filter: Filter,
    i: int,
    j: int,
)
    requires
        cache.wf(),
        cache.stores.contains_key(chain),
        0 <= i < j < cache.refresh(since, rows).stores[chain].selected(filter).len(),
        ({
            let store = cache.refresh(since, rows).stores[chain];
            store.ids[store.selected(filter)[i]] is Some && store.ids[store.selected(filter)[j]] is Some
        }),
    ensures
        ({
            let store = cache.refresh(since, rows).stores[chain];
            store.ids[store.selected(filter)[i]]->0 < store.ids[store.selected(filter)[j]]->0
        }),
{
    law_refresh_keeps_the_cache_well_formed(cache, since, rows);
    assert(cache.refresh(since, rows).stores.contains_key(chain));
    law_results_are_in_ascending_id_order(
        cache.refresh(since, rows).stores[chain],
        filter,
        i,
        j,
    );
}

/// Trades keep the cache well-formed, leave every token as it is, and leave the other chains
/// alone.
pub proof fn law_trades_touch_one_chain_and_no_token(
    cache: CacheView,
    chain: Chain,
    trades: Seq<(Seq<u8>, int)>,
    other: Chain,
)
    requires
        cache.wf(),
    ensures
        cache.trade(chain, trades).wf(),
        cache.trade(chain, trades).stores.dom() == cache.stores.dom(),
        cache.stores.contains_key(other) ==> cache.trade(chain, trades).stores[other].tokens
            == cache.stores[other].tokens,
        other != chain && cache.stores.contains_key(other) ==> cache.trade(
            chain,
            trades,
        ).stores[other] == cache.stores[other],
{
    if cache.stores.contains_key(chain) {
        lemma_traded_all_wf(cache.stores[chain], trades);
        assert(cache.trade(chain, trades).stores.dom() =~= cache.stores.dom());
        assert forall|c: Chain| #[trigger]
            cache.trade(chain, trades).stores.contains_key(c) implies cache.trade(
            chain,
            trades,
        ).stores[c].wf() && all_of_chain(cache.trade(chain, trades).stores[c].tokens, c) by {
            assert(cache.stores.contains_key(c));
        }
    }
}

/// Tokens are written to the stores of their own chains only: a chain that has none among them
/// keeps its store.
pub proof fn law_writes_leave_other_chains_alone(
    cache: CacheView,
    tokens: Seq<TokenView>,
    overwrite: bool,
    chain: Chain,
)
    requires
        cache.stores.contains_key(chain),
        forall|i: int| #![trigger tokens[i]] 0 <= i < tokens.len() ==> tokens[i].chain != chain,
    ensures
        cache.write(tokens, overwrite).stores[chain] == cache.stores[chain],
{
    lemma_none_of_chain(tokens, chain);
}

/// Tokens of a chain that is not cached are not written anywhere.
pub proof fn law_unknown_chains_change_nothing(
    cache: CacheView,
    tokens: Seq<TokenView>,
    overwrite: bool,
)
    requires
        forall|i: int|
            #![trigger tokens[i]]
            0 <= i < tokens.len() ==> !cache.stores.contains_key(tokens[i].chain),
    ensures
        cache.write(tokens, overwrite) == cache,
{
    assert forall|chain: Chain| cache.stores.contains_key(chain) implies #[trigger] cache.write(
        tokens,
        overwrite,
    ).stores[chain] == cache.stores[chain] by {
        lemma_none_of_chain(tokens, chain);
    }
    assert(cache.write(tokens, overwrite).stores =~= cache.stores);
}

/// Where no token is of the chain, the tokens of the chain are none.
proof fn lemma_none_of_chain(tokens: Seq<TokenView>, chain: Chain)
    requires
        forall|i: int| #![trigger tokens[i]] 0 <= i < tokens.len() ==> tokens[i].chain != chain,
    ensures
        of_chain(tokens, chain) == Seq::<TokenView>::empty(),
    decreases tokens.len(),
{
    reveal(Seq::filter);
    if tokens.len() > 0 {
        let fewer = tokens.drop_last();
        assert forall|i: int| #![trigger fewer[i]] 0 <= i < fewer.len() implies fewer[i].chain
            != chain by {
            assert(fewer[i] == tokens[i]);
        }
        lemma_none_of_chain(fewer, chain);
        assert(tokens[tokens.len() - 1].chain != chain);
    }
}

/// To write the same tokens again changes nothing.
pub proof fn law_writing_to_the_cache_again_changes_nothing(
    cache: CacheView,
    tokens: Seq<TokenView>,
    overwrite: bool,
)
    requires
        cache.wf(),
    ensures
        cache.write(tokens, overwrite).write(tokens, overwrite) == cache.write(tokens, overwrite),
{
    let once = cache.write(tokens, overwrite);
    let twice = once.write(tokens, overwrite);
    assert forall|chain: Chain| cache.stores.contains_key(chain) implies #[trigger] twice.stores[chain]
        == once.stores[chain] by {
        assert(once.stores.contains_key(chain));
        law_writing_again_changes_nothing(
            cache.stores[chain],
            of_chain(tokens, chain),
            overwrite,
        );
    }
    assert(twice.stores =~= once.stores);
}

/// The sync marker never goes back behind the time since which rows were asked for, it covers
/// every row of a known chain, and it does not run ahead of what was seen.
pub proof fn law_sync_marker_covers_what_was_seen(
    cache: CacheView,
    since: Timestamp,
    rows: Seq<(TokenRow, Address, i64)>,
)
    ensures
        since.at_or_before(cache.refresh(since, rows).last_sync),
        forall|i: int|
            #![trigger rows[i]]
            0 <= i < rows.len() && cache.chain_ids.contains_key(rows[i].2)
                ==> rows[i].0.modified_ts.at_or_before(cache.refresh(since, rows).last_sync),
        cache.refresh(since, rows).last_sync == since || exists|i: int|
            #![trigger rows[i]]
            0 <= i < rows.len() && cache.chain_ids.contains_key(rows[i].2)
                && rows[i].0.modified_ts == cache.refresh(since, rows).last_sync,
    decreases rows.len(),
{
    if rows.len() > 0 {
        let fewer = rows.drop_last();
        law_sync_marker_covers_what_was_seen(cache, since, fewer);
        assert forall|i: int| #![trigger rows[i]] 0 <= i < rows.len() - 1 implies rows[i]
            == fewer[i] by {}
        let before = cache.refresh(since, fewer).last_sync;
        if before != since {
            let i = choose|i: int|
                #![trigger fewer[i]]
                0 <= i < fewer.len() && cache.chain_ids.contains_key(fewer[i].2)
                    && fewer[i].0.modified_ts == before;
            assert(rows[i] == fewer[i]);
        }
        assert(rows[rows.len() - 1] == rows.last());
    }
}

/// No two rows of one chain share a database id or an address.
pub open spec fn one_row_per_token(
    chain_ids: Map<i64, Chain>,
    rows: Seq<(TokenRow, Address, i64)>,
) -> bool {
    forall|i: int, j: int|
        #![trigger rows[i], rows[j]]
        0 <= i < j < rows.len() && chain_ids.contains_key(rows[i].2) && chain_ids.contains_key(
            rows[j].2,
        ) && chain_ids[rows[i].2] == chain_ids[rows[j].2] ==> rows[i].0.id != rows[j].0.id
            && rows[i].1@ != rows[j].1@
}

/// To take the same rows in again changes nothing.
pub proof fn law_refreshing_again_changes_nothing(
    cache: CacheView,
    since: Timestamp,
    rows: Seq<(TokenRow, Address, i64)>,
)
    requires
        cache.wf(),
        one_row_per_token(cache.chain_ids, rows),
    ensures
        ({
            let once = cache.refresh(since, rows);
            once.refresh(once.last_sync, rows) == once
        }),
{
    let once = cache.refresh(since, rows);
    let all = refreshed(cache.chain_ids, rows);
    law_sync_marker_covers_what_was_seen(cache, since, rows);
    lemma_newest_again(cache.chain_ids, once.last_sync, rows);
    law_refresh_keeps_the_cache_well_formed(cache, since, rows);
    let twice = once.refresh(once.last_sync, rows);
    assert forall|chain: Chain| cache.stores.contains_key(chain) implies #[trigger] twice.stores[chain]
        == once.stores[chain] by {
        assert(once.stores.contains_key(chain));
        let mine = rows_of_chain(all, chain);
        assert forall|k: int| #![trigger mine[k]] 0 <= k < mine.len() implies settled(
            once.stores[chain],
            mine[k],
        ) by {
            let i = lemma_row_behind(cache.chain_ids, rows, chain, k);
            law_refreshed_rows_are_settled(cache, since, rows, i, chain);
        }
        law_settled_rows_change_nothing(once.stores[chain], mine);
    }
    assert(twice.stores =~= once.stores);
    lemma_same_time(twice.last_sync, once.last_sync);
}

/// Every token that is refreshed on a chain comes from a row.
proof fn lemma_row_behind(
    chain_ids: Map<i64, Chain>,
    rows: Seq<(TokenRow, Address, i64)>,
    chain: Chain,
    k: int,
) -> (i: int)
    requires
        0 <= k < rows_of_chain(refreshed(chain_ids, rows), chain).len(),
    ensures
        0 <= i < rows.len(),
        describes(chain_ids, rows[i], rows[i].1@, chain),
        rows_of_chain(refreshed(chain_ids, rows), chain)[k] == (
            rows[i].0.id,
            rows[i].0.model(rows[i].1@, chain),
        ),
    decreases rows.len(),
{
    reveal(Seq::filter);
    let fewer = rows.drop_last();
    lemma_refreshed_step(chain_ids, rows, chain);
    let mine = rows_of_chain(refreshed(chain_ids, fewer), chain);
    if k < mine.len() {
        lemma_row_behind(chain_ids, fewer, chain, k)
    } else {
        rows.len() - 1
    }
}

/// What the last row adds to the tokens that are refreshed on a chain.
proof fn lemma_refreshed_step(
    chain_ids: Map<i64, Chain>,
    rows: Seq<(TokenRow, Address, i64)>,
    chain: Chain,
)
    ensures
        rows.len() == 0 ==> rows_of_chain(refreshed(chain_ids, rows), chain).len() == 0,
        rows.len() > 0 ==> {
            let mine = rows_of_chain(refreshed(chain_ids, rows.drop_last()), chain);
            let (row, address, chain_id) = rows.last();
            let next = (row.id, row.model(address@, chain));
            rows_of_chain(refreshed(chain_ids, rows), chain) == (if describes(
                chain_ids,
                rows.last(),
                address@,
                chain,
            ) {
                mine.push(next)
            } else {
                mine
            })
        },
{
    reveal(Seq::filter);
    if rows.len() > 0 {
        let before = refreshed(chain_ids, rows.drop_last());
        let (row, address, chain_id) = rows.last();
        if chain_ids.contains_key(chain_id) {
            let next = (row.id, row.model(address@, chain_ids[chain_id]));
            assert(before.push(next).drop_last() =~= before);
        }
    }
}

/// Once rows were refreshed, each is settled in the store of its chain: the token that it
/// describes is there, under its database id, unless a later row of the chain has its id or its
/// address.
pub proof fn law_refreshed_rows_are_settled(
    cache: CacheView,
    since: Timestamp,
    rows: Seq<(TokenRow, Address, i64)>,
    i: int,
    chain: Chain,
)
    requires
        cache.wf(),
        cache.stores.contains_key(chain),
        0 <= i < rows.len(),
        describes(cache.chain_ids, rows[i], rows[i].1@, chain),
        forall|j: int|
            #![trigger rows[j]]
            i < j < rows.len() && describes(cache.chain_ids, rows[j], rows[j].1@, chain)
                ==> rows[j].0.id != rows[i].0.id && rows[j].1@ != rows[i].1@,
    ensures
        settled(
            cache.refresh(since, rows).stores[chain],
            (rows[i].0.id, rows[i].0.model(rows[i].1@, chain)),
        ),
    decreases rows.len(),
{
    let fewer = rows.drop_last();
    let store = cache.stores[chain];
    let mine = rows_of_chain(refreshed(cache.chain_ids, fewer), chain);
    let last = rows[rows.len() - 1];
    lemma_refreshed_step(cache.chain_ids, rows, chain);
    lemma_upsert_rows(store, mine);
    let before = store.upsert_rows(mine);
    let token = last.0.model(last.1@, chain);
    if describes(cache.chain_ids, last, last.1@, chain) {
        assert(mine.push((last.0.id, token)).drop_last() =~= mine);
        lemma_upsert_row(before, last.0.id, token, rows[i].1@);
        lemma_released(before, last.0.id, rows[i].1@);
    }
    if i < rows.len() - 1 {
        assert forall|j: int|
            #![trigger fewer[j]]
            i < j < fewer.len() && describes(
                cache.chain_ids,
                fewer[j],
                fewer[j].1@,
                chain,
            ) implies fewer[j].0.id != fewer[i].0.id && fewer[j].1@ != fewer[i].1@ by {
            assert(fewer[j] == rows[j]);
            assert(fewer[i] == rows[i]);
        }
        assert(fewer[i] == rows[i]);
        law_refreshed_rows_are_settled(cache, since, fewer, i, chain);
    }
}

/// The rows of the token table that were modified after `since`, in their order.
pub open spec fn modified_after(
    table: Seq<(TokenRow, Address, i64)>,
    since: Timestamp,
) -> Seq<(TokenRow, Address, i64)> {
    table.filter(|row: (TokenRow, Address, i64)| !row.0.modified_ts.at_or_before(since))
}

/// Where the sync marker covers the token table, no row is newer, and a refresh changes nothing.
pub proof fn law_covered_table_refreshes_nothing(
    cache: CacheView,
    table: Seq<(TokenRow, Address, i64)>,
)
    requires
        forall|i: int|
            #![trigger table[i]]
            0 <= i < table.len() ==> table[i].0.modified_ts.at_or_before(cache.last_sync),
    ensures
        modified_after(table, cache.last_sync) == Seq::<(TokenRow, Address, i64)>::empty(),
        cache.refresh(cache.last_sync, modified_after(table, cache.last_sync)) == cache,
{
    let newer = |row: (TokenRow, Address, i64)| !row.0.modified_ts.at_or_before(cache.last_sync);
    let rows = modified_after(table, cache.last_sync);
    if rows.len() > 0 {
        table.lemma_filter_pred(newer, 0);
        assert(rows.contains(rows[0]));
        table.lemma_filter_contains_rev(newer, rows[0]);
        let i = choose|i: int| 0 <= i < table.len() && table[i] == rows[0];
        assert(table[i] == rows[0]);
    }
    assert(rows =~= Seq::empty());
    reveal(Seq::filter);
    assert(cache.refresh(cache.last_sync, rows).stores =~= cache.stores);
}

/// After a refresh from a token table whose chains are all known, the same table gives no rows,
/// and refreshing from it changes neither the marker nor any store: no row is delivered twice.
pub proof fn law_unchanged_table_refreshes_nothing(
    cache: CacheView,
    since: Timestamp,
    table: Seq<(TokenRow, Address, i64)>,
)
    requires
        forall|i: int|
            #![trigger table[i]]
            0 <= i < table.len() ==> cache.chain_ids.contains_key(table[i].2),
    ensures
        ({
            let once = cache.refresh(since, modified_after(table, since));
            &&& modified_after(table, once.last_sync) == Seq::<(TokenRow, Address, i64)>::empty()
            &&& once.refresh(once.last_sync, modified_after(table, once.last_sync)) == once
        }),
{
    let newer = |row: (TokenRow, Address, i64)| !row.0.modified_ts.at_or_before(since);
    let rows = modified_after(table, since);
    let once = cache.refresh(since, rows);
    law_sync_marker_covers_what_was_seen(cache, since, rows);
    assert forall|i: int| #![trigger table[i]] 0 <= i < table.len() implies table[i].0.modified_ts.at_or_before(
        once.last_sync,
    ) by {
        if newer(table[i]) {
            table.lemma_filter_contains(newer, i);
            let k = choose|k: int| 0 <= k < rows.len() && rows[k] == table[i];
            assert(rows[k].0.modified_ts.at_or_before(once.last_sync));
        }
    }
    law_covered_table_refreshes_nothing(once, table);
}

/// Rows that are not newer do not move the marker.
proof fn lemma_newest_again(
    chain_ids: Map<i64, Chain>,
    marker: Timestamp,
    rows: Seq<(TokenRow, Address, i64)>,
)
    requires
        forall|i: int|
            #![trigger rows[i]]
            0 <= i < rows.len() && chain_ids.contains_key(rows[i].2)
                ==> rows[i].0.modified_ts.at_or_before(marker),
    ensures
        newest(chain_ids, marker, rows).secs() == marker.secs(),
        newest(chain_ids, marker, rows).nanos() == marker.nanos(),
    decreases rows.len(),
{
    if rows.len() > 0 {
        let fewer = rows.drop_last();
        assert forall|i: int|
            #![trigger fewer[i]]
            0 <= i < fewer.len() && chain_ids.contains_key(fewer[i].2) implies
            fewer[i].0.modified_ts.at_or_before(marker) by {
            assert(fewer[i] == rows[i]);
        }
        lemma_newest_again(chain_ids, marker, fewer);
        assert(rows[rows.len() - 1] == rows.last());
    }
}

/// What was refreshed can be read back: the store of a row's chain then holds the token that the
/// row describes, unless a later row describes the same token; it was last traded when it was
/// before.
pub proof fn law_refreshed_rows_read_back(
    cache: CacheView,
    since: Timestamp,
    rows: Seq<(TokenRow, Address, i64)>,
    i: int,
    chain: Chain,
)
    requires
        cache.wf(),
        cache.stores.contains_key(chain),
        0 <= i < rows.len(),
        describes(cache.chain_ids, rows[i], rows[i].1@, chain),
        forall|j: int|
            #![trigger rows[j]]
            i < j < rows.len() ==> !describes(cache.chain_ids, rows[j], rows[i].1@, chain),
    ensures
        cache.refresh(since, rows).stores[chain].entry(rows[i].1@) matches Some((token, traded, _))
            && token == rows[i].0.model(rows[i].1@, chain) && traded == (
        match cache.stores[chain].entry(rows[i].1@) {
            Some((_, before, _)) => before,
            None => NEVER_TRADED,
        }),
{
    let mine = rows_of_chain(refreshed(cache.chain_ids, rows), chain);
    let k = lemma_last_refreshed(cache.chain_ids, rows, i, chain);
    law_last_row_wins(cache.stores[chain], mine, k);
}

/// The chain of a row that was refreshed has a token at the address of the row. It is the token
/// of the row, unless a later row is for the same address and chain, and it was last traded when
/// it was before; if it was not there before, it was never traded.
pub proof fn law_refreshed_row_is_there(
    cache: CacheView,
    since: Timestamp,
    rows: Seq<(TokenRow, Address, i64)>,
    i: int,
) -> (p: int)
    requires
        cache.wf(),
        0 <= i < rows.len(),
        cache.chain_ids.contains_key(rows[i].2),
        cache.stores.contains_key(cache.chain_ids[rows[i].2]),
        forall|j: int|
            #![trigger rows[j]]
            i < j < rows.len() && cache.chain_ids.contains_key(rows[j].2)
                && cache.chain_ids[rows[j].2] == cache.chain_ids[rows[i].2] ==> rows[j].1@
                != rows[i].1@,
    ensures
        ({
            let chain = cache.chain_ids[rows[i].2];
            let before = cache.stores[chain];
            let after = cache.refresh(since, rows).stores[chain];
            &&& 0 <= p < after.tokens.len()
            &&& after.tokens[p].address == rows[i].1@
            &&& after.tokens[p] == rows[i].0.model(rows[i].1@, chain)
            &&& forall|q: int|
                #![trigger before.tokens[q]]
                0 <= q < before.tokens.len() && before.tokens[q].address == rows[i].1@
                    ==> after.last_traded[p] == before.last_traded[q]
            &&& (forall|q: int|
                #![trigger before.tokens[q]]
                0 <= q < before.tokens.len() ==> before.tokens[q].address != rows[i].1@)
                ==> after.last_traded[p] == i64::MIN
        }),
{
    let chain = cache.chain_ids[rows[i].2];
    let before = cache.stores[chain];
    let after = cache.refresh(since, rows).stores[chain];
    let address = rows[i].1@;
    assert forall|j: int| #![trigger rows[j]] i < j < rows.len() implies !describes(
        cache.chain_ids,
        rows[j],
        address,
        chain,
    ) by {}
    law_refreshed_rows_read_back(cache, since, rows, i, chain);
    law_refresh_keeps_the_cache_well_formed(cache, since, rows);
    assert(cache.refresh(since, rows).stores.contains_key(chain));
    law_known_addresses_are_those_of_the_tokens(before, address);
    law_known_addresses_are_those_of_the_tokens(after, address);
    after.position(address)
}

/// The token of a row that was refreshed has the values of the row.
pub proof fn law_refreshed_row_keeps_its_values(
    cache: CacheView,
    since: Timestamp,
    rows: Seq<(TokenRow, Address, i64)>,
    i: int,
    p: int,
)
    requires
        cache.wf(),
        0 <= i < rows.len(),
        cache.chain_ids.contains_key(rows[i].2),
        cache.stores.contains_key(cache.chain_ids[rows[i].2]),
        forall|j: int|
            #![trigger rows[j]]
            i < j < rows.len() && cache.chain_ids.contains_key(rows[j].2)
                && cache.chain_ids[rows[j].2] == cache.chain_ids[rows[i].2] ==> rows[j].1@
                != rows[i].1@,
        0 <= p < cache.refresh(since, rows).stores[cache.chain_ids[rows[i].2]].tokens.len(),
        cache.refresh(since, rows).stores[cache.chain_ids[rows[i].2]].tokens[p].address
            == rows[i].1@,
    ensures
        ({
            let chain = cache.chain_ids[rows[i].2];
            let token = cache.refresh(since, rows).stores[chain].tokens[p];
            let row = rows[i].0;
            &&& token.chain == chain
            &&& token.symbol == row.symbol@
            &&& row.decimals >= 0 ==> token.decimals == row.decimals
            &&& row.tax >= 0 ==> token.tax == row.tax
            &&& row.quality >= 0 ==> token.quality == row.quality
            &&& row.quality < 0 ==> token.quality - 0x1_0000_0000 == row.quality
            &&& token.gas.len() == row.gas@.len()
            &&& forall|g: int|
                #![trigger token.gas[g]]
                0 <= g < row.gas@.len() ==> (row.gas@[g] is None <==> token.gas[g] is None) && (
                row.gas@[g] is Some && row.gas@[g]->0 >= 0 ==> token.gas[g]->0 == row.gas@[g]->0)
        }),
{
    let chain = cache.chain_ids[rows[i].2];
    let q = law_refreshed_row_is_there(cache, since, rows, i);
    law_refresh_keeps_the_cache_well_formed(cache, since, rows);
    assert(cache.refresh(since, rows).stores.contains_key(chain));
    let after = cache.refresh(since, rows).stores[chain];
    assert(after.tokens[p].address == after.tokens[q].address);
    law_row_values_are_kept(rows[i].0, rows[i].1@, chain);
}

/// A refresh leaves the tokens alone that no row describes.
pub proof fn law_refresh_leaves_other_tokens_alone(
    cache: CacheView,
    since: Timestamp,
    rows: Seq<(TokenRow, Address, i64)>,
    chain: Chain,
    address: Seq<u8>,
)
    requires
        cache.wf(),
        cache.stores.contains_key(chain),
        forall|i: int|
            #![trigger rows[i]]
            0 <= i < rows.len() ==> !describes(cache.chain_ids, rows[i], address, chain),
    ensures
        match cache.stores[chain].entry(address) {
            Some((token, traded, _)) => cache.refresh(since, rows).stores[chain].entry(
                address,
            ) matches Some((t, at, _)) && t == token && at == traded,
            None => cache.refresh(since, rows).stores[chain].entry(address) is None,
        },
{
    let mine = rows_of_chain(refreshed(cache.chain_ids, rows), chain);
    assert forall|k: int| #![trigger mine[k]] 0 <= k < mine.len() implies mine[k].1.address
        != address by {
        let i = lemma_row_behind(cache.chain_ids, rows, chain, k);
        assert(!describes(cache.chain_ids, rows[i], address, chain));
    }
    law_rows_leave_other_tokens_alone(cache.stores[chain], mine, address);
}

/// The row describes the token at `address` of a chain.
pub open spec fn describes(
    chain_ids: Map<i64, Chain>,
    row: (TokenRow, Address, i64),
    address: Seq<u8>,
    chain: Chain,
) -> bool {
    &&& chain_ids.contains_key(row.2)
    &&& chain_ids[row.2] == chain
    &&& row.1@ == address
}

/// Where the last row that describes a token stands among the rows of its chain.
proof fn lemma_last_refreshed(
    chain_ids: Map<i64, Chain>,
    rows: Seq<(TokenRow, Address, i64)>,
    i: int,
    chain: Chain,
) -> (k: int)
    requires
        0 <= i < rows.len(),
        describes(chain_ids, rows[i], rows[i].1@, chain),
        forall|j: int|
            #![trigger rows[j]]
            i < j < rows.len() ==> !describes(chain_ids, rows[j], rows[i].1@, chain),
    ensures
        ({
            let mine = rows_of_chain(refreshed(chain_ids, rows), chain);
            &&& 0 <= k < mine.len()
            &&& mine[k] == (rows[i].0.id, rows[i].0.model(rows[i].1@, chain))
            &&& forall|j: int|
                #![trigger mine[j]]
                k < j < mine.len() ==> mine[j].1.address != rows[i].1@
        }),
    decreases rows.len(),
{
    lemma_refreshed_step(chain_ids, rows, chain);
    let fewer = rows.drop_last();
    let before = rows_of_chain(refreshed(chain_ids, fewer), chain);
    let mine = rows_of_chain(refreshed(chain_ids, rows), chain);
    if i < rows.len() - 1 {
        assert forall|j: int| #![trigger fewer[j]] i < j < fewer.len() implies !describes(
            chain_ids,
            fewer[j],
            rows[i].1@,
            chain,
        ) by {
            assert(fewer[j] == rows[j]);
        }
        assert(fewer[i] == rows[i]);
        let k = lemma_last_refreshed(chain_ids, fewer, i, chain);
        let last = rows[rows.len() - 1];
        assert(!describes(chain_ids, last, rows[i].1@, chain));
        assert forall|j: int| #![trigger mine[j]] k < j < mine.len() implies mine[j].1.address
            != rows[i].1@ by {
            if j < before.len() {
                assert(mine[j] == before[j]);
            }
        }
        k
    } else {
        before.len() as int
    }
}

/// Adding tokens keeps every cached token as it is, in its place, and appends each address that
/// is not cached yet once, in the order in which the addresses first occur, with the token of the
/// first occurrence, as never traded. Adding the tokens again changes nothing.
pub proof fn law_added_tokens(cache: CacheView, tokens: Seq<TokenView>, chain: Chain)
    requires
        cache.wf(),
        cache.stores.contains_key(chain),
    ensures
        ({
            let before = cache.stores[chain];
            let after = cache.write(tokens, false).stores[chain];
            let added = newcomers(before, of_chain(tokens, chain));
            let n = before.tokens.len() as int;
            &&& after.tokens == before.tokens + added
            &&& after.last_traded == before.last_traded + Seq::new(
                added.len(),
                |i: int| NEVER_TRADED,
            )
            &&& after.ids.take(n) == before.ids
            &&& cache.write(tokens, false).write(tokens, false) == cache.write(tokens, false)
        }),
{
    let before = cache.stores[chain];
    let mine = of_chain(tokens, chain);
    let after = before.upsert_all(mine, false);
    let added = newcomers(before, mine);
    let n = before.tokens.len() as int;
    law_new_addresses_are_appended_once_in_order(before, mine, false);
    law_store_is_append_only(before, mine, false);
    lemma_upsert_all_wf(before, mine, false);
    law_writing_to_the_cache_again_changes_nothing(cache, tokens, false);
    assert forall|p: int| 0 <= p < n implies after.last_traded[p] == before.last_traded[p] by {
        assert(after.last_traded.take(n)[p] == before.last_traded[p]);
    }
    assert(after.last_traded =~= before.last_traded + Seq::new(
        added.len(),
        |i: int| NEVER_TRADED,
    ));
}

/// Upserting tokens keeps every cached token in its place, with its last trade; each address that
/// is not cached yet is appended once, in the order in which the addresses first occur, as never
/// traded. At each address that was written to, the token is the one of the last occurrence; at
/// the others it is the one that was there. Upserting the tokens again changes nothing.
pub proof fn law_upserted_tokens(
    cache: CacheView,
    tokens: Seq<TokenView>,
    chain: Chain,
    address: Seq<u8>,
)
    requires
        cache.wf(),
        cache.stores.contains_key(chain),
    ensures
        ({
            let before = cache.stores[chain];
            let after = cache.write(tokens, true).stores[chain];
            let mine = of_chain(tokens, chain);
            let all = before.tokens + newcomers(before, mine);
            let n = before.tokens.len() as int;
            &&& after.tokens.len() == all.len()
            &&& forall|p: int|
                #![trigger after.tokens[p]]
                0 <= p < all.len() ==> after.tokens[p].address == all[p].address
            &&& after.last_traded == before.last_traded + Seq::new(
                newcomers(before, mine).len(),
                |i: int| NEVER_TRADED,
            )
            &&& after.ids.take(n) == before.ids
            &&& after.has(address) <==> before.has(address) || last_write(mine, address) is Some
            &&& last_write(mine, address) matches Some(token)
                ==> after.tokens[after.position(address)] == token
            &&& last_write(mine, address) is None && before.has(address)
                ==> after.tokens[after.position(address)] == before.tokens[before.position(address)]
            &&& cache.write(tokens, true).write(tokens, true) == cache.write(tokens, true)
        }),
{
    let before = cache.stores[chain];
    let mine = of_chain(tokens, chain);
    let after = before.upsert_all(mine, true);
    let n = before.tokens.len() as int;
    law_new_addresses_are_appended_once_in_order(before, mine, true);
    law_store_is_append_only(before, mine, true);
    lemma_upsert_all_wf(before, mine, true);
    law_last_write_wins(before, mine, address);
    law_writing_to_the_cache_again_changes_nothing(cache, tokens, true);
    assert forall|p: int| 0 <= p < n implies after.last_traded[p] == before.last_traded[p] by {
        assert(after.last_traded.take(n)[p] == before.last_traded[p]);
    }
    assert(after.last_traded =~= before.last_traded + Seq::new(
        newcomers(before, mine).len(),
        |i: int| NEVER_TRADED,
    ));
}

/// Where the rows of a chain agree with the order in which its tokens are cached, a refresh moves
/// none of them: every cached token keeps its place and its last trade, and each row of a token
/// that is not cached is appended, in row order, as never traded.
pub proof fn law_refresh_in_keeping_moves_nothing(
    cache: CacheView,
    since: Timestamp,
    rows: Seq<(TokenRow, Address, i64)>,
    chain: Chain,
    ids: Seq<Option<i64>>,
)
    requires
        cache.wf(),
        cache.stores.contains_key(chain),
        in_keeping(
            cache.stores[chain],
            rows_of_chain(refreshed(cache.chain_ids, rows), chain),
            ids,
        ),
    ensures
        ({
            let before = cache.stores[chain];
            let after = cache.refresh(since, rows).stores[chain];
            let added = new_rows(
                before,
                rows_of_chain(refreshed(cache.chain_ids, rows), chain),
            );
            let n = before.tokens.len() as int;
            &&& after.tokens.len() == n + added.len()
            &&& after.last_traded.take(n) == before.last_traded
            &&& forall|p: int|
                #![trigger after.tokens[p]]
                0 <= p < n ==> after.tokens[p].address == before.tokens[p].address
            &&& forall|i: int|
                #![trigger added[i]]
                0 <= i < added.len() ==> after.tokens[n + i] == added[i].1
                    && after.last_traded[n + i] == NEVER_TRADED && after.ids[n + i] == Some(
                    added[i].0,
                )
        }),
{
    let before = cache.stores[chain];
    let mine = rows_of_chain(refreshed(cache.chain_ids, rows), chain);
    let after = cache.refresh(since, rows).stores[chain];
    law_rows_in_keeping_move_nothing(before, mine, ids);
    assert(after == before.upsert_rows(mine));
    let added = new_rows(before, mine);
    let n = before.tokens.len() as int;
    assert forall|i: int| #![trigger added[i]] 0 <= i < added.len() implies after.tokens[n + i]
        == added[i].1 && after.last_traded[n + i] == NEVER_TRADED && after.ids[n + i] == Some(
        added[i].0,
    ) by {
        assert(before.upsert_rows(mine).tokens[n + i] == new_rows(before, mine)[i].1);
    }
}

/// Rows of a chain that are not cached and have larger ids than every known one, in ascending
/// order, are appended in row order, as never traded; what was cached stays as it was, tokens
/// whose id is not known among it.
pub proof fn law_refresh_appends_larger_ids(
    cache: CacheView,
    since: Timestamp,
    rows: Seq<(TokenRow, Address, i64)>,
    chain: Chain,
)
    requires
        cache.wf(),
        cache.stores.contains_key(chain),
        ({
            let store = cache.stores[chain];
            let mine = rows_of_chain(refreshed(cache.chain_ids, rows), chain);
            &&& forall|i: int|
                #![trigger mine[i]]
                0 <= i < mine.len() ==> !store.has(mine[i].1.address)
            &&& forall|i: int, p: int|
                #![trigger mine[i], store.ids[p]]
                0 <= i < mine.len() && 0 <= p < store.ids.len() && store.ids[p] is Some
                    ==> store.ids[p]->0 < mine[i].0
            &&& forall|i: int, j: int|
                #![trigger mine[i], mine[j]]
                0 <= i < j < mine.len() ==> mine[i].0 < mine[j].0 && mine[i].1.address
                    != mine[j].1.address
        }),
    ensures
        ({
            let before = cache.stores[chain];
            let after = cache.refresh(since, rows).stores[chain];
            let mine = rows_of_chain(refreshed(cache.chain_ids, rows), chain);
            &&& after.tokens == before.tokens + mine.map_values(|row: (i64, TokenView)| row.1)
            &&& after.last_traded == before.last_traded + Seq::new(
                mine.len(),
                |i: int| NEVER_TRADED,
            )
            &&& after.ids == before.ids + mine.map_values(|row: (i64, TokenView)| Some(row.0))
        }),
{
    law_larger_ids_are_appended(
        cache.stores[chain],
        rows_of_chain(refreshed(cache.chain_ids, rows), chain),
    );
}

/// The last token at an address among those of a chain is the last one of that chain and address
/// among all.
proof fn lemma_last_write_of_chain(
    tokens: Seq<TokenView>,
    chain: Chain,
    address: Seq<u8>,
) -> (i: int)
    ensures
        last_write(of_chain(tokens, chain), address) is Some ==> {
            &&& 0 <= i < tokens.len()
            &&& last_write(of_chain(tokens, chain), address) == Some(tokens[i])
            &&& tokens[i].chain == chain
            &&& tokens[i].address == address
            &&& forall|j: int|
                #![trigger tokens[j]]
                i < j < tokens.len() ==> !(tokens[j].chain == chain && tokens[j].address
                    == address)
        },
        last_write(of_chain(tokens, chain), address) is None ==> forall|j: int|
            #![trigger tokens[j]]
            0 <= j < tokens.len() ==> !(tokens[j].chain == chain && tokens[j].address == address),
    decreases tokens.len(),
{
    reveal(Seq::filter);
    if tokens.len() == 0 {
        0
    } else {
        let fewer = tokens.drop_last();
        let last = tokens[tokens.len() - 1];
        let mine = of_chain(fewer, chain);
        let i = lemma_last_write_of_chain(fewer, chain, address);
        assert forall|j: int| 0 <= j < fewer.len() implies fewer[j] == #[trigger] tokens[j] by {}
        if last.chain == chain {
            assert(of_chain(tokens, chain) =~= mine.push(last));
            assert(mine.push(last).drop_last() =~= mine);
        }
        if last.chain == chain && last.address == address {
            tokens.len() - 1
        } else {
            i
        }
    }
}

/// The newcomers of a chain stand in the order of their first occurrence.
proof fn lemma_newcomers_of_chain(
    store: StoreView,
    tokens: Seq<TokenView>,
    chain: Chain,
    k: int,
    m: int,
) -> (first: (int, int))
    requires
        0 <= k <= m < newcomers(store, of_chain(tokens, chain)).len(),
    ensures
        ({
            let added = newcomers(store, of_chain(tokens, chain));
            let (i, j) = first;
            &&& 0 <= i <= j < tokens.len()
            &&& k < m ==> i < j
            &&& added[k] == tokens[i]
            &&& added[m] == tokens[j]
            &&& tokens[i].chain == chain
            &&& tokens[j].chain == chain
            &&& !store.has(tokens[i].address)
            &&& !store.has(tokens[j].address)
            &&& forall|h: int|
                #![trigger tokens[h]]
                0 <= h < i ==> !(tokens[h].chain == chain && tokens[h].address
                    == tokens[i].address)
            &&& forall|h: int|
                #![trigger tokens[h]]
                0 <= h < j ==> !(tokens[h].chain == chain && tokens[h].address
                    == tokens[j].address)
        }),
    decreases tokens.len(),
{
    reveal(Seq::filter);
    let added = newcomers(store, of_chain(tokens, chain));
    let fewer = tokens.drop_last();
    let last = tokens[tokens.len() - 1];
    let mine = of_chain(fewer, chain);
    let before = newcomers(store, mine);
    assert forall|h: int| 0 <= h < fewer.len() implies fewer[h] == #[trigger] tokens[h] by {}
    if last.chain == chain {
        assert(of_chain(tokens, chain) =~= mine.push(last));
        assert(mine.push(last).drop_last() =~= mine);
    }
    if m < before.len() {
        let (i, j) = lemma_newcomers_of_chain(store, fewer, chain, k, m);
        (i, j)
    } else {
        let j = tokens.len() - 1;
        assert(added == before.push(last));
        let w = lemma_last_write_of_chain(fewer, chain, last.address);
        assert forall|h: int| #![trigger tokens[h]] 0 <= h < j implies !(tokens[h].chain == chain
            && tokens[h].address == last.address) by {
            assert(fewer[h] == tokens[h]);
        }
        if k < m {
            let (i, _) = lemma_newcomers_of_chain(store, fewer, chain, k, k);
            (i, j)
        } else {
            (j, j)
        }
    }
}

/// Every token that is there when tokens are written keeps its place, its last trade and its
/// database id, and is replaced only by a written token of its chain, and only when overwriting.
/// No address comes to be there twice.
pub proof fn law_writing_keeps_what_is_there(
    cache: CacheView,
    tokens: Seq<TokenView>,
    overwrite: bool,
    chain: Chain,
)
    requires
        cache.wf(),
        cache.stores.contains_key(chain),
    ensures
        ({
            let before = cache.stores[chain];
            let after = cache.write(tokens, overwrite).stores[chain];
            let n = before.tokens.len();
            &&& n <= after.tokens.len()
            &&& after.last_traded.len() == after.tokens.len()
            &&& after.ids.len() == after.tokens.len()
            &&& forall|p: int|
                #![trigger after.tokens[p]]
                0 <= p < n ==> {
                    &&& after.tokens[p].address == before.tokens[p].address
                    &&& after.last_traded[p] == before.last_traded[p]
                    &&& after.ids[p] == before.ids[p]
                    &&& after.tokens[p] == before.tokens[p] || (overwrite && exists|i: int|
                        0 <= i < tokens.len() && #[trigger] tokens[i] == after.tokens[p]
                            && tokens[i].chain == chain)
                }
            &&& forall|p: int, q: int|
                #![trigger after.tokens[p], after.tokens[q]]
                0 <= p < q < after.tokens.len() ==> after.tokens[p].address
                    != after.tokens[q].address
        }),
{
    let before = cache.stores[chain];
    let mine = of_chain(tokens, chain);
    let after = before.upsert_all(mine, overwrite);
    assert(cache.write(tokens, overwrite).stores[chain] == after);
    lemma_upsert_all_wf(before, mine, overwrite);
    let n = before.tokens.len() as int;
    law_store_is_append_only(before, mine, overwrite);
    assert forall|p: int| #![trigger after.tokens[p]] 0 <= p < n implies {
        &&& after.tokens[p].address == before.tokens[p].address
        &&& after.last_traded[p] == before.last_traded[p]
        &&& after.ids[p] == before.ids[p]
        &&& after.tokens[p] == before.tokens[p] || (overwrite && exists|i: int|
            0 <= i < tokens.len() && #[trigger] tokens[i] == after.tokens[p] && tokens[i].chain
                == chain)
    } by {
        assert(after.last_traded.take(n)[p] == before.last_traded[p]);
        assert(after.ids.take(n)[p] == before.ids[p]);
        if overwrite {
            let address = before.tokens[p].address;
            lemma_position(before, address, p);
            lemma_position(after, address, p);
            law_last_write_wins(before, mine, address);
            let i = lemma_last_write_of_chain(tokens, chain, address);
            if last_write(mine, address) is Some {
                assert(tokens[i] == after.tokens[p]);
            }
        } else {
            assert(after.tokens.take(n)[p] == before.tokens[p]);
        }
    }
}

/// Every written token of a cached chain has its address there afterwards; when overwriting, the
/// last one written to an address is the one that is there.
pub proof fn law_written_tokens_are_there(
    cache: CacheView,
    tokens: Seq<TokenView>,
    overwrite: bool,
    chain: Chain,
)
    requires
        cache.wf(),
        cache.stores.contains_key(chain),
    ensures
        ({
            let after = cache.write(tokens, overwrite).stores[chain];
            &&& forall|i: int|
                #![trigger tokens[i]]
                0 <= i < tokens.len() && tokens[i].chain == chain ==> exists|p: int|
                    0 <= p < after.tokens.len() && (#[trigger] after.tokens[p]).address
                        == tokens[i].address
            &&& forall|i: int|
                #![trigger tokens[i]]
                overwrite && 0 <= i < tokens.len() && tokens[i].chain == chain && (forall|j: int|
                    #![trigger tokens[j]]
                    i < j < tokens.len() ==> !(tokens[j].chain == chain && tokens[j].address
                        == tokens[i].address)) ==> exists|p: int|
                    0 <= p < after.tokens.len() && #[trigger] after.tokens[p] == tokens[i]
        }),
{
    let before = cache.stores[chain];
    let mine = of_chain(tokens, chain);
    let after = before.upsert_all(mine, overwrite);
    assert(cache.write(tokens, overwrite).stores[chain] == after);
    lemma_upsert_all_wf(before, mine, overwrite);
    assert forall|i: int|
        #![trigger tokens[i]]
        0 <= i < tokens.len() && tokens[i].chain == chain implies exists|p: int|
        0 <= p < after.tokens.len() && (#[trigger] after.tokens[p]).address
            == tokens[i].address by {
        let address = tokens[i].address;
        let w = lemma_last_write_of_chain(tokens, chain, address);
        lemma_known_after(before, mine, overwrite, address);
        assert(after.holds(address, after.position(address)));
    }
    assert forall|i: int|
        #![trigger tokens[i]]
        overwrite && 0 <= i < tokens.len() && tokens[i].chain == chain && (forall|j: int|
            #![trigger tokens[j]]
            i < j < tokens.len() ==> !(tokens[j].chain == chain && tokens[j].address
                == tokens[i].address)) implies exists|p: int|
        0 <= p < after.tokens.len() && #[trigger] after.tokens[p] == tokens[i] by {
        let address = tokens[i].address;
        let w = lemma_last_write_of_chain(tokens, chain, address);
        assert(w == i);
        law_last_write_wins(before, mine, address);
        assert(after.holds(address, after.position(address)));
    }
}

/// What was not there before tokens were written comes behind what was, never traded and without
/// a database id. It is at the address of a written token of the chain; when adding, it is the
/// first one written to that address.
pub proof fn law_new_tokens_come_behind(
    cache: CacheView,
    tokens: Seq<TokenView>,
    overwrite: bool,
    chain: Chain,
)
    requires
        cache.wf(),
        cache.stores.contains_key(chain),
    ensures
        ({
            let before = cache.stores[chain];
            let after = cache.write(tokens, overwrite).stores[chain];
            let n = before.tokens.len();
            forall|p: int|
                #![trigger after.tokens[p]]
                n <= p < after.tokens.len() ==> {
                    &&& after.last_traded[p] == i64::MIN
                    &&& after.ids[p] is None
                    &&& exists|i: int|
                        0 <= i < tokens.len() && (#[trigger] tokens[i]).chain == chain
                            && tokens[i].address == after.tokens[p].address && (!overwrite
                            ==> tokens[i] == after.tokens[p]) && forall|j: int|
                            #![trigger tokens[j]]
                            0 <= j < i ==> !(tokens[j].chain == chain && tokens[j].address
                                == tokens[i].address)
                }
        }),
{
    let before = cache.stores[chain];
    let mine = of_chain(tokens, chain);
    let after = before.upsert_all(mine, overwrite);
    assert(cache.write(tokens, overwrite).stores[chain] == after);
    lemma_upsert_all_wf(before, mine, overwrite);
    let n = before.tokens.len() as int;
    let added = newcomers(before, mine);
    let all = before.tokens + added;
    law_store_is_append_only(before, mine, overwrite);
    law_new_addresses_are_appended_once_in_order(before, mine, overwrite);
    assert forall|p: int| #![trigger after.tokens[p]] n <= p < after.tokens.len() implies {
        &&& after.last_traded[p] == i64::MIN
        &&& after.ids[p] is None
        &&& exists|i: int|
            0 <= i < tokens.len() && (#[trigger] tokens[i]).chain == chain && tokens[i].address
                == after.tokens[p].address && (!overwrite ==> tokens[i] == after.tokens[p])
                && forall|j: int|
                #![trigger tokens[j]]
                0 <= j < i ==> !(tokens[j].chain == chain && tokens[j].address
                    == tokens[i].address)
    } by {
        assert(after.last_traded[p] == NEVER_TRADED && after.ids[p] is None);
        let (i, _) = lemma_newcomers_of_chain(before, tokens, chain, p - n, p - n);
        assert(all[p] == added[p - n]);
        assert(tokens[i].chain == chain);
    }
}

/// What comes in when tokens are written stands in the order in which the addresses first occur:
/// of two new tokens, the address of the one that stands first was written to before the address
/// of the other one was.
pub proof fn law_new_tokens_come_in_order_of_first_occurrence(
    cache: CacheView,
    tokens: Seq<TokenView>,
    overwrite: bool,
    chain: Chain,
    p: int,
    q: int,
    j: int,
)
    requires
        cache.wf(),
        cache.stores.contains_key(chain),
        cache.stores[chain].tokens.len() <= p < q,
        q < cache.write(tokens, overwrite).stores[chain].tokens.len(),
        0 <= j < tokens.len(),
        tokens[j].chain == chain,
        tokens[j].address == cache.write(tokens, overwrite).stores[chain].tokens[q].address,
    ensures
        exists|i: int|
            0 <= i < j && (#[trigger] tokens[i]).chain == chain && tokens[i].address == cache.write(
                tokens,
                overwrite,
            ).stores[chain].tokens[p].address,
{
    let before = cache.stores[chain];
    let mine = of_chain(tokens, chain);
    let after = before.upsert_all(mine, overwrite);
    assert(cache.write(tokens, overwrite).stores[chain] == after);
    let n = before.tokens.len() as int;
    let added = newcomers(before, mine);
    let all = before.tokens + added;
    law_new_addresses_are_appended_once_in_order(before, mine, overwrite);
    let (i, f) = lemma_newcomers_of_chain(before, tokens, chain, p - n, q - n);
    assert(after.tokens[p].address == all[p].address && after.tokens[q].address
        == all[q].address);
    assert(all[p] == added[p - n]);
    assert(all[q] == added[q - n]);
    assert(f <= j);
    assert(tokens[i].address == after.tokens[p].address);
}

/// Writing tokens keeps the set of cached chains, what is known of their database ids, and the
/// sync marker.
pub proof fn law_writing_keeps_chains_and_marker(
    cache: CacheView,
    tokens: Seq<TokenView>,
    overwrite: bool,
    chain: Chain,
)
    ensures
        cache.write(tokens, overwrite).stores.contains_key(chain) <==> cache.stores.contains_key(
            chain,
        ),
        cache.write(tokens, overwrite).chain_ids == cache.chain_ids,
        cache.write(tokens, overwrite).last_sync == cache.last_sync,
{
}

/// A refresh keeps the set of cached chains and what is known of their database ids.
pub proof fn law_refresh_keeps_chains(
    cache: CacheView,
    since: Timestamp,
    rows: Seq<(TokenRow, Address, i64)>,
    chain: Chain,
)
    ensures
        cache.refresh(since, rows).stores.contains_key(chain) <==> cache.stores.contains_key(chain),
        cache.refresh(since, rows).chain_ids == cache.chain_ids,
{
}

/// What noting trades does to the chain that they are of: the last trade of each token is then
/// the latest of the one known before and all of those noted for its address. Its tokens, their
/// places and ids stay as they are, and so does everything else.
pub proof fn law_what_trades_do(
    cache: CacheView,
    chain: Chain,
    updates: Seq<(Address, Timestamp)>,
    p: int,
)
    requires
        cache.wf(),
        cache.stores.contains_key(chain),
        0 <= p < cache.stores[chain].tokens.len(),
        forall|i: int|
            #![trigger updates[i]]
            0 <= i < updates.len() ==> representable(updates[i].1.secs(), updates[i].1.nanos()),
    ensures
        ({
            let before = cache.stores[chain];
            let traded = cache.trade(chain, trade_views(updates));
            let after = traded.stores[chain];
            &&& traded.stores.contains_key(chain)
            &&& traded.chain_ids == cache.chain_ids
            &&& traded.last_sync == cache.last_sync
            &&& after.tokens == before.tokens
            &&& after.ids == before.ids
            &&& after.last_traded.len() == before.last_traded.len()
            &&& after.last_traded[p] >= before.last_traded[p]
            &&& forall|i: int|
                #![trigger updates[i]]
                0 <= i < updates.len() && updates[i].0@ == before.tokens[p].address
                    ==> after.last_traded[p] >= updates[i].1.secs() * 1_000_000
                    + updates[i].1.nanos() as int / 1000
            &&& after.last_traded[p] == before.last_traded[p] || exists|i: int|
                #![trigger updates[i]]
                0 <= i < updates.len() && updates[i].0@ == before.tokens[p].address
                    && after.last_traded[p] == updates[i].1.secs() * 1_000_000
                    + updates[i].1.nanos() as int / 1000
        }),
{
    let before = cache.stores[chain];
    let trades = trade_views(updates);
    let after = before.traded_all(trades);
    let address = before.tokens[p].address;
    let known = before.last_traded[p] as int;
    assert forall|i: int| #![trigger trades[i]] 0 <= i < trades.len() implies i64::MIN
        <= trades[i].1 <= i64::MAX by {
        assert(representable(updates[i].1.secs(), updates[i].1.nanos()));
    }
    law_latest_trade_counts(before, trades, p);
    lemma_traded_ids(before, trades);
    lemma_latest_trade(known, trades, address);
    assert forall|i: int|
        #![trigger updates[i]]
        0 <= i < updates.len() && updates[i].0@ == address implies after.last_traded[p]
        >= updates[i].1.secs() * 1_000_000 + updates[i].1.nanos() as int / 1000 by {
        assert(trades[i].0 == address);
    }
    if after.last_traded[p] != before.last_traded[p] {
        let i = choose|i: int|
            #![trigger trades[i]]
            0 <= i < trades.len() && trades[i].0 == address && trades[i].1 == latest_trade(
                known,
                trades,
                address,
            );
        assert(updates[i].0@ == trades[i].0);
    }
}

/// Noting trades leaves the database ids alone.
proof fn lemma_traded_ids(store: StoreView, trades: Seq<(Seq<u8>, int)>)
    ensures
        store.traded_all(trades).ids == store.ids,
    decreases trades.len(),
{
    if trades.len() > 0 {
        lemma_traded_ids(store, trades.drop_last());
    }
}

/// The latest trade is one of those there are, and none is later.
proof fn lemma_latest_trade(known: int, trades: Seq<(Seq<u8>, int)>, address: Seq<u8>)
    ensures
        latest_trade(known, trades, address) >= known,
        forall|i: int|
            #![trigger trades[i]]
            0 <= i < trades.len() && trades[i].0 == address ==> latest_trade(
                known,
                trades,
                address,
            ) >= trades[i].1,
        latest_trade(known, trades, address) == known || exists|i: int|
            #![trigger trades[i]]
            0 <= i < trades.len() && trades[i].0 == address && trades[i].1 == latest_trade(
                known,
                trades,
                address,
            ),
    decreases trades.len(),
{
    if trades.len() > 0 {
        let fewer = trades.drop_last();
        lemma_latest_trade(known, fewer, address);
        assert forall|i: int| 0 <= i < fewer.len() implies fewer[i] == #[trigger] trades[i] by {}
        let before = latest_trade(known, fewer, address);
        if before != known {
            let i = choose|i: int|
                #![trigger fewer[i]]
                0 <= i < fewer.len() && fewer[i].0 == address && fewer[i].1 == before;
            assert(trades[i] == fewer[i]);
        }
        assert(trades[trades.len() - 1] == trades.last());
    }
}

/// The trades of a chain that is not cached change nothing.
pub proof fn law_trades_of_unknown_chains_change_nothing(
    cache: CacheView,
    chain: Chain,
    trades: Seq<(Seq<u8>, int)>,
)
    requires
        !cache.stores.contains_key(chain),
    ensures
        cache.trade(chain, trades) == cache,
{
}

/// Tokens in a vector are looked at one by one.
pub proof fn law_tokens_are_looked_at_one_by_one(tokens: Seq<Token>)
    ensures
        token_views(tokens).len() == tokens.len(),
        forall|i: int|
            #![trigger token_views(tokens)[i]]
            0 <= i < tokens.len() ==> token_views(tokens)[i] == tokens[i]@,
{
}

/// There is room for as many tokens more as no chain comes to hold more than 2^32 by.
pub proof fn law_room_ends_at_the_last_position(cache: CacheView, count: nat)
    ensures
        cache.has_room(count) <==> forall|chain: Chain| #[trigger]
            cache.stores.contains_key(chain) ==> cache.stores[chain].tokens.len() + count
                <= 0x1_0000_0000,
        cache.fits() <==> cache.has_room(0),
{
    if cache.fits() {
        assert forall|chain: Chain| #[trigger] cache.stores.contains_key(chain) implies
            cache.stores[chain].tokens.len() + 0nat <= MAX_POSITIONS by {}
    }
    if cache.has_room(0) {
        assert forall|chain: Chain| #[trigger] cache.stores.contains_key(chain) implies
            cache.stores[chain].tokens.len() <= MAX_POSITIONS by {}
    }
}

/// A written token shows at once: a query of its chain for its address gives that token alone.
pub proof fn law_written_token_shows_at_once(cache: CacheView, token: TokenView)
    requires
        cache.wf(),
        cache.stores.contains_key(token.chain),
    ensures
        cache.write(seq![token], true).stores[token.chain].answer(
            by_address(seq![token.address]),
            Page { offset: 0, limit: None },
        ) == seq![token],
{
    reveal(Seq::filter);
    let store = cache.stores[token.chain];
    let one = seq![token];
    assert(one.drop_last() =~= Seq::empty());
    assert(of_chain(one, token.chain) =~= one);
    reveal_with_fuel(StoreView::upsert_all, 2);
    assert(store.upsert_all(one, true) == store.upsert(token, true));
    law_written_token_is_found(store, token, true);
    assert(seq![token].skip(0) =~= seq![token]);
}

/// A refresh writes no more tokens than it has rows, so room for as many is enough.
pub proof fn law_room_for_the_rows_is_enough(
    cache: CacheView,
    since: Timestamp,
    rows: Seq<(TokenRow, Address, i64)>,
)
    requires
        cache.wf(),
        cache.has_room(rows.len()),
    ensures
        cache.refresh(since, rows).fits(),
{
    let all = refreshed(cache.chain_ids, rows);
    let after = cache.refresh(since, rows);
    lemma_refreshed_len(cache.chain_ids, rows);
    assert forall|chain: Chain| #[trigger] after.stores.contains_key(chain) implies
        after.stores[chain].tokens.len() <= MAX_POSITIONS by {
        assert(cache.stores.contains_key(chain));
        lemma_upsert_rows(cache.stores[chain], rows_of_chain(all, chain));
        all.lemma_filter_len(|row: (i64, TokenView)| row.1.chain == chain);
    }
}

proof fn lemma_refreshed_len(chain_ids: Map<i64, Chain>, rows: Seq<(TokenRow, Address, i64)>)
    ensures
        refreshed(chain_ids, rows).len() <= rows.len(),
    decreases rows.len(),
{
    if rows.len() > 0 {
        lemma_refreshed_len(chain_ids, rows.drop_last());
    }
}

/// As many tokens as every store has room for can be written.
pub proof fn law_room_is_enough(cache: CacheView, tokens: Seq<TokenView>, overwrite: bool)
    requires
        cache.wf(),
        cache.has_room(tokens.len()),
    ensures
        cache.write(tokens, overwrite).fits(),
{
    let written = cache.write(tokens, overwrite);
    assert forall|chain: Chain| #[trigger] written.stores.contains_key(chain) implies
        written.stores[chain].tokens.len() <= MAX_POSITIONS by {
        assert(cache.stores.contains_key(chain));
        lemma_upsert_all_wf(cache.stores[chain], of_chain(tokens, chain), overwrite);
        tokens.lemma_filter_len(|t: TokenView| t.chain == chain);
    }
}

/// A chain that is loaded is entered without touching the others, and the sync marker is then no
/// earlier than before and no earlier than any modification of the chain's tokens.
pub proof fn law_loading_a_chain_keeps_the_others(
    cache: CacheView,
    chain_id: i64,
    chain: Chain,
    store: StoreView,
    max_modified_ts: Timestamp,
    other: Chain,
)
    ensures
        ({
            let after = cache.with_chain(chain_id, chain, store, max_modified_ts);
            &&& after.stores.contains_key(chain)
            &&& after.stores[chain] == store
            &&& other != chain ==> (after.stores.contains_key(other) <==> cache.stores.contains_key(
                other,
            )) && after.stores[other] == cache.stores[other]
            &&& after.chain_ids.contains_key(chain_id)
            &&& after.chain_ids[chain_id] == chain
            &&& after.chain_ids.remove(chain_id) == cache.chain_ids.remove(chain_id)
            &&& cache.last_sync.at_or_before(after.last_sync)
            &&& max_modified_ts.at_or_before(after.last_sync)
            &&& after.last_sync == cache.last_sync || after.last_sync == max_modified_ts
        }),
{
}

} // verus!
