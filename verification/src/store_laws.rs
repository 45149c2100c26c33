//! What holds of every token store, whatever was written to it and asked of it.

use crate::model::{
    ascending_ids, lemma_entry, lemma_place, lemma_place_unique, lemma_position, lemma_released,
    lemma_traded_all_wf, lemma_upsert_all_wf, lemma_upsert_row, lemma_upsert_rows,
    lemma_upsert_wf, lemma_with_at, lemma_without, place_of, StoreView, NEVER_TRADED,
};
use crate::positions::{
    ascending, lemma_all_positions, lemma_positions_where, lemma_positions_where_same,
};
use crate::query::{Filter, Page, QualityRange};
use crate::token::TokenView;
use vstd::prelude::*;

verus! {

/// The filter that lets every token pass.
pub open spec fn no_filter() -> Filter {
    Filter {
        addresses: None,
        quality: QualityRange { min: None, max: None },
        traded_after: None,
    }
}

/// The filter that lets the tokens at these addresses pass.
pub open spec fn by_address(addresses: Seq<Seq<u8>>) -> Filter {
    Filter { addresses: Some(addresses), ..no_filter() }
}

/// An address is known exactly if some token has it, and its position is where that token stands.
pub proof fn law_known_addresses_are_those_of_the_tokens(store: StoreView, address: Seq<u8>)
    requires
        store.wf(),
    ensures
        store.has(address) <==> exists|p: int|
            0 <= p < store.tokens.len() && (#[trigger] store.tokens[p]).address == address,
        store.has(address) ==> 0 <= store.position(address) < store.tokens.len()
            && store.tokens[store.position(address)].address == address,
        store.entry(address) is Some <==> store.has(address),
        forall|p: int|
            #![trigger store.tokens[p]]
            0 <= p < store.tokens.len() && store.tokens[p].address == address ==> store.entry(
                address,
            ) == Some((store.tokens[p], store.last_traded[p], store.ids[p])),
{
    if exists|p: int| 0 <= p < store.tokens.len() && (#[trigger] store.tokens[p]).address
        == address {
        let p = choose|p: int|
            0 <= p < store.tokens.len() && (#[trigger] store.tokens[p]).address == address;
        assert(store.holds(address, p));
    }
    if store.has(address) {
        assert(store.holds(address, store.position(address)));
    }
    assert forall|p: int|
        #![trigger store.tokens[p]]
        0 <= p < store.tokens.len() && store.tokens[p].address == address implies store.entry(
        address,
    ) == Some((store.tokens[p], store.last_traded[p], store.ids[p])) by {
        lemma_entry(store, address, p);
    }
}

/// A well-formed store has a last-traded value and an entry for the database id for every token,
/// no two tokens with the same address, and known ids that ascend.
pub proof fn law_well_formed_store(store: StoreView)
    requires
        store.wf(),
    ensures
        store.last_traded.len() == store.tokens.len(),
        store.ids.len() == store.tokens.len(),
        forall|p: int, q: int|
            #![trigger store.tokens[p], store.tokens[q]]
            0 <= p < q < store.tokens.len() ==> store.tokens[p].address != store.tokens[q].address,
        forall|p: int, q: int|
            #![trigger store.ids[p], store.ids[q]]
            0 <= p < q < store.ids.len() && store.ids[p] is Some && store.ids[q] is Some
                ==> store.ids[p]->0 < store.ids[q]->0,
{
}

/// A token is found exactly if it passes the filter, and results come in the order in which the
/// tokens stand.
pub proof fn law_selected_exactly_and_in_order(store: StoreView, filter: Filter)
    ensures
        ascending(store.selected(filter)),
        forall|p: int| #[trigger]
            store.selected(filter).contains(p) <==> 0 <= p < store.tokens.len() && store.selects(
                filter,
                p,
            ),
        store.matches(filter).len() == store.selected(filter).len(),
        forall|i: int|
            #![trigger store.matches(filter)[i]]
            0 <= i < store.matches(filter).len() ==> store.matches(filter)[i]
                == store.tokens[store.selected(filter)[i]],
{
    lemma_positions_where(store.tokens.len(), |p: int| store.selects(filter, p));
}

/// Results come in ascending order of the database ids, as far as these are known.
pub proof fn law_results_are_in_ascending_id_order(
    store: StoreView,
    filter: Filter,
    i: int,
    j: int,
)
    requires
        store.wf(),
        0 <= i < j < store.selected(filter).len(),
        store.ids[store.selected(filter)[i]] is Some,
        store.ids[store.selected(filter)[j]] is Some,
    ensures
        store.ids[store.selected(filter)[i]]->0 < store.ids[store.selected(filter)[j]]->0,
{
    let selected = store.selected(filter);
    law_selected_exactly_and_in_order(store, filter);
    assert(selected.contains(selected[i]));
    assert(selected.contains(selected[j]));
}

/// Without a filter every token is found.
pub proof fn law_no_filter_finds_every_token(store: StoreView)
    ensures
        store.matches(no_filter()) == store.tokens,
{
    let keep = |p: int| store.selects(no_filter(), p);
    lemma_all_positions(store.tokens.len(), keep);
    assert(store.matches(no_filter()) =~= store.tokens);
}

/// A page is a slice of the matches; the number of matches does not depend on it.
pub proof fn law_page_is_a_slice_of_the_matches(store: StoreView, filter: Filter, page: Page)
    ensures
        ({
            let all = store.matches(filter);
            let start = if page.offset <= all.len() {
                page.offset as int
            } else {
                all.len() as int
            };
            let end = match page.limit {
                Some(limit) if start + limit < all.len() => start + limit,
                _ => all.len() as int,
            };
            store.answer(filter, page) == all.subrange(start, end)
        }),
{
    let all = store.matches(filter);
    let start = if page.offset <= all.len() {
        page.offset as int
    } else {
        all.len() as int
    };
    let end = match page.limit {
        Some(limit) if start + limit < all.len() => start + limit,
        _ => all.len() as int,
    };
    assert(store.answer(filter, page) =~= all.subrange(start, end));
}

/// The pages of `size` entries up to number `count`, one after the other.
pub open spec fn sweep(store: StoreView, filter: Filter, size: nat, count: nat) -> Seq<TokenView>
    decreases count,
{
    if count == 0 {
        Seq::empty()
    } else {
        sweep(store, filter, size, (count - 1) as nat) + store.answer(
            filter,
            Page { offset: (count - 1) as nat * size, limit: Some(size) },
        )
    }
}

/// Consecutive pages make up the whole result: nothing is lost and nothing comes twice.
pub proof fn law_pages_make_up_the_result(
    store: StoreView,
    filter: Filter,
    size: nat,
    count: nat,
)
    ensures
        sweep(store, filter, size, count) == (if count * size <= store.matches(filter).len() {
            store.matches(filter).take((count * size) as int)
        } else {
            store.matches(filter)
        }),
    decreases count,
{
    let all = store.matches(filter);
    if count == 0 {
        assert(count * size == 0) by (nonlinear_arith)
            requires
                count == 0,
        ;
        assert(sweep(store, filter, size, count) =~= all.take(0));
    } else {
        let before = (count - 1) as nat;
        law_pages_make_up_the_result(store, filter, size, before);
        assert(count * size == before * size + size) by (nonlinear_arith)
            requires
                count == before + 1,
        ;
        assert(0 <= before * size) by (nonlinear_arith);
        let page = Page { offset: before * size, limit: Some(size) };
        law_page_is_a_slice_of_the_matches(store, filter, page);
        if count * size <= all.len() {
            assert(sweep(store, filter, size, count) =~= all.take((count * size) as int));
        } else {
            assert(sweep(store, filter, size, count) =~= all);
        }
    }
}

/// A token passes a filter exactly if it passes its parts one by one.
pub proof fn law_filters_combine_as_an_intersection(store: StoreView, filter: Filter, p: int)
    ensures
        store.selected(filter).contains(p) <==> {
            &&& store.selected(Filter { addresses: filter.addresses, ..no_filter() }).contains(p)
            &&& store.selected(Filter { quality: filter.quality, ..no_filter() }).contains(p)
            &&& store.selected(Filter { traded_after: filter.traded_after, ..no_filter() }).contains(
                p,
            )
        },
{
    law_selected_exactly_and_in_order(store, filter);
    law_selected_exactly_and_in_order(
        store,
        Filter { addresses: filter.addresses, ..no_filter() },
    );
    law_selected_exactly_and_in_order(
        store,
        Filter { quality: filter.quality, ..no_filter() },
    );
    law_selected_exactly_and_in_order(
        store,
        Filter { traded_after: filter.traded_after, ..no_filter() },
    );
}

/// The order in which addresses are asked for does not matter, nor whether one comes twice, nor
/// whether unknown ones are among them.
pub proof fn law_only_known_addresses_matter(
    store: StoreView,
    filter: Filter,
    asked: Seq<Seq<u8>>,
    also: Seq<Seq<u8>>,
)
    requires
        forall|address: Seq<u8>| #[trigger]
            store.has(address) ==> (asked.contains(address) <==> also.contains(address)),
    ensures
        store.matches(Filter { addresses: Some(asked), ..filter }) == store.matches(
            Filter { addresses: Some(also), ..filter },
        ),
{
    let left = Filter { addresses: Some(asked), ..filter };
    let right = Filter { addresses: Some(also), ..filter };
    let keep_left = |p: int| store.selects(left, p);
    let keep_right = |p: int| store.selects(right, p);
    assert forall|p: int| 0 <= p < store.tokens.len() implies (#[trigger] keep_left(p)
        <==> keep_right(p)) by {
        assert(store.holds(store.tokens[p].address, p));
        assert(store.has(store.tokens[p].address));
    }
    lemma_positions_where_same(store.tokens.len(), keep_left, keep_right);
}

/// A filter on the last trade leaves out tokens that were never traded, and those whose last
/// trade was at the threshold or before.
pub proof fn law_traded_filter_excludes_never_and_older(
    store: StoreView,
    filter: Filter,
    threshold: int,
    p: int,
)
    requires
        filter.traded_after == Some(threshold),
        threshold >= i64::MIN,
        0 <= p < store.tokens.len(),
        store.last_traded[p] == NEVER_TRADED || store.last_traded[p] <= threshold,
    ensures
        !store.selected(filter).contains(p),
{
    law_selected_exactly_and_in_order(store, filter);
}

/// Writing tokens never moves or drops the tokens that are there, nor forgets their database ids
/// or when they were traded; with `overwrite` unset it does not change them at all.
pub proof fn law_store_is_append_only(store: StoreView, tokens: Seq<TokenView>, overwrite: bool)
    requires
        store.wf(),
    ensures
        ({
            let after = store.upsert_all(tokens, overwrite);
            &&& store.tokens.len() <= after.tokens.len() <= store.tokens.len() + tokens.len()
            &&& after.last_traded.take(store.tokens.len() as int) == store.last_traded
            &&& after.ids.take(store.tokens.len() as int) == store.ids
            &&& forall|p: int|
                #![trigger after.tokens[p]]
                0 <= p < store.tokens.len() ==> after.tokens[p].address == store.tokens[p].address
            &&& forall|p: int|
                #![trigger after.last_traded[p]]
                #![trigger after.ids[p]]
                store.tokens.len() <= p < after.tokens.len() ==> after.last_traded[p]
                    == NEVER_TRADED && after.ids[p] is None
            &&& !overwrite ==> after.tokens.take(store.tokens.len() as int) == store.tokens
        }),
    decreases tokens.len(),
{
    let n = store.tokens.len() as int;
    if tokens.len() == 0 {
        assert(store.last_traded.take(n) =~= store.last_traded);
        assert(store.ids.take(n) =~= store.ids);
        assert(store.tokens.take(n) =~= store.tokens);
    } else {
        let before = store.upsert_all(tokens.drop_last(), overwrite);
        law_store_is_append_only(store, tokens.drop_last(), overwrite);
        lemma_upsert_all_wf(store, tokens.drop_last(), overwrite);
        let token = tokens.last();
        let after = store.upsert_all(tokens, overwrite);
        if before.has(token.address) {
            lemma_position(before, token.address, before.position(token.address));
        } else {
            assert(after.last_traded.take(n) =~= before.last_traded.take(n));
            assert(after.ids.take(n) =~= before.ids.take(n));
            assert(after.tokens.take(n) =~= before.tokens.take(n));
        }
    }
}

/// Those of `tokens` that are the first one at an address that the store does not know, in order.
pub open spec fn newcomers(store: StoreView, tokens: Seq<TokenView>) -> Seq<TokenView>
    decreases tokens.len(),
{
    if tokens.len() == 0 {
        Seq::empty()
    } else {
        let before = newcomers(store, tokens.drop_last());
        let token = tokens.last();
        if store.has(token.address) || last_write(tokens.drop_last(), token.address) is Some {
            before
        } else {
            before.push(token)
        }
    }
}

/// Each address that is not known yet is appended once, in the order in which the addresses first
/// occur; without `overwrite` the token there is the one of the first occurrence.
pub proof fn law_new_addresses_are_appended_once_in_order(
    store: StoreView,
    tokens: Seq<TokenView>,
    overwrite: bool,
)
    requires
        store.wf(),
    ensures
        ({
            let after = store.upsert_all(tokens, overwrite);
            let all = store.tokens + newcomers(store, tokens);
            &&& after.tokens.len() == all.len()
            &&& forall|p: int|
                #![trigger after.tokens[p]]
                0 <= p < all.len() ==> after.tokens[p].address == all[p].address
            &&& !overwrite ==> after.tokens == all
        }),
    decreases tokens.len(),
{
    if tokens.len() == 0 {
        assert(store.tokens + newcomers(store, tokens) =~= store.tokens);
    } else {
        let fewer = tokens.drop_last();
        let token = tokens.last();
        let before = store.upsert_all(fewer, overwrite);
        let after = store.upsert_all(tokens, overwrite);
        law_new_addresses_are_appended_once_in_order(store, fewer, overwrite);
        lemma_upsert_all_wf(store, fewer, overwrite);
        lemma_known_after(store, fewer, overwrite, token.address);
        if before.has(token.address) {
            lemma_position(before, token.address, before.position(token.address));
        } else {
            assert(store.tokens + newcomers(store, fewer).push(token) =~= (store.tokens
                + newcomers(store, fewer)).push(token));
        }
    }
}

/// The addresses that are known after writing are those known before and those written to.
pub proof fn lemma_known_after(
    store: StoreView,
    tokens: Seq<TokenView>,
    overwrite: bool,
    address: Seq<u8>,
)
    requires
        store.wf(),
    ensures
        store.upsert_all(tokens, overwrite).has(address) <==> store.has(address) || last_write(
            tokens,
            address,
        ) is Some,
    decreases tokens.len(),
{
    if tokens.len() > 0 {
        lemma_known_after(store, tokens.drop_last(), overwrite, address);
        lemma_upsert_all_wf(store, tokens.drop_last(), overwrite);
        lemma_upsert_reads_back(
            store.upsert_all(tokens.drop_last(), overwrite),
            tokens.last(),
            overwrite,
            address,
        );
    }
}

/// The last of `tokens` that has this address.
pub open spec fn last_write(tokens: Seq<TokenView>, address: Seq<u8>) -> Option<TokenView>
    decreases tokens.len(),
{
    if tokens.len() == 0 {
        None
    } else if tokens.last().address == address {
        Some(tokens.last())
    } else {
        last_write(tokens.drop_last(), address)
    }
}

/// What a store holds once tokens were written with `overwrite` set: the token that was written
/// last to an address, and what was there before at the others.
pub proof fn law_last_write_wins(store: StoreView, tokens: Seq<TokenView>, address: Seq<u8>)
    requires
        store.wf(),
    ensures
        ({
            let after = store.upsert_all(tokens, true);
            &&& after.has(address) <==> store.has(address) || last_write(tokens, address) is Some
            &&& last_write(tokens, address) matches Some(token)
                ==> after.tokens[after.position(address)] == token
            &&& last_write(tokens, address) is None && store.has(address) ==> after.position(address)
                == store.position(address) && after.tokens[after.position(address)]
                == store.tokens[store.position(address)]
        }),
    decreases tokens.len(),
{
    if tokens.len() > 0 {
        let before = store.upsert_all(tokens.drop_last(), true);
        let after = store.upsert_all(tokens, true);
        let token = tokens.last();
        law_last_write_wins(store, tokens.drop_last(), address);
        lemma_upsert_all_wf(store, tokens.drop_last(), true);
        lemma_upsert_wf(before, token, true);
        lemma_upsert_reads_back(before, token, true, address);
    }
}

/// What a single write does to the token at an address.
proof fn lemma_upsert_reads_back(
    store: StoreView,
    token: TokenView,
    overwrite: bool,
    address: Seq<u8>,
)
    requires
        store.wf(),
    ensures
        ({
            let after = store.upsert(token, overwrite);
            &&& after.has(address) <==> store.has(address) || address == token.address
            &&& address == token.address && (overwrite || !store.has(address))
                ==> after.tokens[after.position(address)] == token
            &&& store.has(address) ==> after.position(address) == store.position(address)
            &&& store.has(address) && (address != token.address || !overwrite)
                ==> after.tokens[after.position(address)] == store.tokens[store.position(address)]
        }),
{
    let after = store.upsert(token, overwrite);
    lemma_upsert_wf(store, token, overwrite);
    if store.has(token.address) {
        let q = store.position(token.address);
        lemma_position(store, token.address, q);
        lemma_position(after, token.address, q);
    } else {
        lemma_position(after, token.address, store.tokens.len() as int);
    }
    if store.has(address) {
        let p = store.position(address);
        lemma_position(store, address, p);
        assert(after.tokens[p].address == address);
        lemma_position(after, address, p);
    } else if after.has(address) {
        let p = after.position(address);
        assert(after.holds(address, p));
        if p < store.tokens.len() {
            assert(store.tokens[p].address == address);
            assert(store.holds(address, p));
        }
    }
}

/// To write the same tokens again changes nothing.
pub proof fn law_writing_again_changes_nothing(
    store: StoreView,
    tokens: Seq<TokenView>,
    overwrite: bool,
)
    requires
        store.wf(),
    ensures
        store.upsert_all(tokens, overwrite).upsert_all(tokens, overwrite) == store.upsert_all(
            tokens,
            overwrite,
        ),
{
    let once = store.upsert_all(tokens, overwrite);
    lemma_upsert_all_wf(store, tokens, overwrite);
    assert forall|i: int| 0 <= i < tokens.len() implies once.has(
        (#[trigger] tokens[i]).address,
    ) by {
        lemma_written_is_known(store, tokens, overwrite, i);
    }
    lemma_known_adds_nothing(once, tokens, overwrite);
    let twice = once.upsert_all(tokens, overwrite);
    if overwrite {
        law_store_is_append_only(once, tokens, overwrite);
        lemma_upsert_all_wf(once, tokens, overwrite);
        assert forall|p: int| 0 <= p < once.tokens.len() implies twice.tokens[p]
            == once.tokens[p] by {
            let address = once.tokens[p].address;
            assert(twice.tokens[p].address == address);
            lemma_position(once, address, p);
            lemma_position(twice, address, p);
            law_last_write_wins(store, tokens, address);
            law_last_write_wins(once, tokens, address);
        }
        assert(twice.tokens =~= once.tokens);
        assert(twice.last_traded.take(once.tokens.len() as int) =~= twice.last_traded);
        assert(twice.ids.take(once.tokens.len() as int) =~= twice.ids);
    }
}

/// An address that was written to is known.
proof fn lemma_written_is_known(
    store: StoreView,
    tokens: Seq<TokenView>,
    overwrite: bool,
    i: int,
)
    requires
        store.wf(),
        0 <= i < tokens.len(),
    ensures
        store.upsert_all(tokens, overwrite).has(tokens[i].address),
    decreases tokens.len(),
{
    let before = store.upsert_all(tokens.drop_last(), overwrite);
    lemma_upsert_all_wf(store, tokens.drop_last(), overwrite);
    lemma_upsert_reads_back(before, tokens.last(), overwrite, tokens[i].address);
    if i < tokens.len() - 1 {
        lemma_written_is_known(store, tokens.drop_last(), overwrite, i);
        assert(tokens.drop_last()[i] == tokens[i]);
    }
}

/// Writing to known addresses makes a store no longer, and without `overwrite` it does nothing.
proof fn lemma_known_adds_nothing(store: StoreView, tokens: Seq<TokenView>, overwrite: bool)
    requires
        store.wf(),
        forall|i: int| 0 <= i < tokens.len() ==> store.has((#[trigger] tokens[i]).address),
    ensures
        store.upsert_all(tokens, overwrite).tokens.len() == store.tokens.len(),
        !overwrite ==> store.upsert_all(tokens, overwrite) == store,
    decreases tokens.len(),
{
    if tokens.len() > 0 {
        let fewer = tokens.drop_last();
        assert forall|i: int| 0 <= i < fewer.len() implies store.has(
            (#[trigger] fewer[i]).address,
        ) by {
            assert(fewer[i] == tokens[i]);
        }
        lemma_known_adds_nothing(store, fewer, overwrite);
        let before = store.upsert_all(fewer, overwrite);
        let address = tokens.last().address;
        assert(store.has(tokens[tokens.len() - 1].address));
        law_store_is_append_only(store, fewer, overwrite);
        let p = store.position(address);
        lemma_position(store, address, p);
        assert(before.tokens[p].address == address);
        assert(before.holds(address, p));
    }
}

/// What was written is found again under its address: exactly that token, and nothing else. A
/// token that is added under a known address is not.
pub proof fn law_written_token_is_found(store: StoreView, token: TokenView, overwrite: bool)
    requires
        store.wf(),
    ensures
        store.upsert(token, overwrite).matches(by_address(seq![token.address])) == (if overwrite
            || !store.has(token.address) {
            seq![token]
        } else {
            seq![store.tokens[store.position(token.address)]]
        }),
{
    let after = store.upsert(token, overwrite);
    lemma_upsert_wf(store, token, overwrite);
    lemma_upsert_reads_back(store, token, overwrite, token.address);
    law_known_address_finds_its_token(after, token.address);
}

/// A query for one address finds the token there, if there is one.
pub proof fn law_known_address_finds_its_token(store: StoreView, address: Seq<u8>)
    requires
        store.wf(),
    ensures
        store.matches(by_address(seq![address])) == (if store.has(address) {
            seq![store.tokens[store.position(address)]]
        } else {
            Seq::empty()
        }),
{
    let filter = by_address(seq![address]);
    let selected = store.selected(filter);
    law_selected_exactly_and_in_order(store, filter);
    assert(seq![address][0] == address);
    assert forall|i: int| 0 <= i < selected.len() implies store.holds(
        address,
        #[trigger] selected[i],
    ) by {
        assert(selected.contains(selected[i]));
    }
    if store.has(address) {
        let p = store.position(address);
        lemma_position(store, address, p);
        assert(seq![address].contains(store.tokens[p].address));
        assert(store.selects(filter, p));
        assert(selected.contains(p));
        assert forall|i: int| 0 <= i < selected.len() implies #[trigger] selected[i] == p by {
            lemma_position(store, address, selected[i]);
        }
        if selected.len() > 1 {
            assert(selected[0] < selected[1]);
        }
        assert(store.matches(filter) =~= seq![store.tokens[p]]);
    } else {
        if selected.len() > 0 {
            assert(store.holds(address, selected[0]));
        }
        assert(store.matches(filter) =~= Seq::empty());
    }
}

/// The last-traded time of a token never goes back, and noting a trade makes it at least as late
/// as that trade.
pub proof fn law_last_traded_is_monotonic(store: StoreView, address: Seq<u8>, micros: int, p: int)
    requires
        store.wf(),
        i64::MIN <= micros <= i64::MAX,
        0 <= p < store.tokens.len(),
    ensures
        store.traded(address, micros).tokens == store.tokens,
        store.tokens[p].address != address ==> store.traded(address, micros).last_traded[p]
            == store.last_traded[p],
        store.tokens[p].address == address ==> store.traded(address, micros).last_traded[p] == (
        if store.last_traded[p] < micros {
            micros
        } else {
            store.last_traded[p] as int
        }),
{
    if store.has(address) {
        lemma_position(store, address, store.position(address));
    }
    if store.tokens[p].address == address {
        assert(store.holds(address, p));
        lemma_position(store, address, p);
    }
}

/// The order in which two trades are noted does not matter.
pub proof fn law_trades_commute(
    store: StoreView,
    first: Seq<u8>,
    first_micros: int,
    second: Seq<u8>,
    second_micros: int,
)
    requires
        store.wf(),
        i64::MIN <= first_micros <= i64::MAX,
        i64::MIN <= second_micros <= i64::MAX,
    ensures
        store.traded(first, first_micros).traded(second, second_micros) == store.traded(
            second,
            second_micros,
        ).traded(first, first_micros),
{
    let one = store.traded(first, first_micros);
    let other = store.traded(second, second_micros);
    let left = one.traded(second, second_micros);
    let right = other.traded(first, first_micros);
    assert forall|p: int| 0 <= p < store.tokens.len() implies left.last_traded[p]
        == right.last_traded[p] by {
        law_last_traded_is_monotonic(store, first, first_micros, p);
        law_last_traded_is_monotonic(store, second, second_micros, p);
        law_last_traded_is_monotonic(one, second, second_micros, p);
        law_last_traded_is_monotonic(other, first, first_micros, p);
    }
    assert(left.last_traded =~= right.last_traded);
    assert(left.tokens =~= right.tokens);
}

/// The latest of `known` and the trades of the token at `address`.
pub open spec fn latest_trade(known: int, trades: Seq<(Seq<u8>, int)>, address: Seq<u8>) -> int
    decreases trades.len(),
{
    if trades.len() == 0 {
        known
    } else {
        let before = latest_trade(known, trades.drop_last(), address);
        let (traded, micros) = trades.last();
        if traded == address && before < micros {
            micros
        } else {
            before
        }
    }
}

/// Once trades were noted, in whatever order they came, each token was last traded at the latest
/// of them, or when it was before if that was later.
pub proof fn law_latest_trade_counts(store: StoreView, trades: Seq<(Seq<u8>, int)>, p: int)
    requires
        store.wf(),
        forall|i: int|
            #![trigger trades[i]]
            0 <= i < trades.len() ==> i64::MIN <= trades[i].1 <= i64::MAX,
        0 <= p < store.tokens.len(),
    ensures
        store.traded_all(trades).tokens == store.tokens,
        store.traded_all(trades).last_traded.len() == store.last_traded.len(),
        store.traded_all(trades).last_traded[p] == latest_trade(
            store.last_traded[p] as int,
            trades,
            store.tokens[p].address,
        ),
    decreases trades.len(),
{
    if trades.len() > 0 {
        let fewer = trades.drop_last();
        assert forall|i: int| #![trigger fewer[i]] 0 <= i < fewer.len() implies i64::MIN
            <= fewer[i].1 <= i64::MAX by {
            assert(fewer[i] == trades[i]);
        }
        law_latest_trade_counts(store, fewer, p);
        lemma_traded_all_wf(store, fewer);
        let last = trades[trades.len() - 1];
        law_last_traded_is_monotonic(store.traded_all(fewer), last.0, last.1, p);
    }
}

/// A trade of an unknown token changes nothing.
pub proof fn law_unknown_trade_changes_nothing(store: StoreView, address: Seq<u8>, micros: int)
    requires
        !store.has(address),
    ensures
        store.traded(address, micros) == store,
{
}

/// The token of a row at a new address goes directly before the first token whose known id is
/// larger, or to the end if there is none. All that was there keeps its values and its order.
pub proof fn law_new_row_goes_before_the_first_larger_id(
    store: StoreView,
    id: i64,
    token: TokenView,
) -> (k: int)
    requires
        store.wf(),
        forall|p: int|
            #![trigger store.tokens[p]]
            0 <= p < store.tokens.len() ==> store.tokens[p].address != token.address,
        forall|p: int|
            #![trigger store.ids[p]]
            0 <= p < store.ids.len() ==> store.ids[p] != Some(id),
    ensures
        0 <= k <= store.tokens.len(),
        forall|p: int|
            #![trigger store.ids[p]]
            0 <= p < k && store.ids[p] is Some ==> store.ids[p]->0 < id,
        k < store.tokens.len() ==> store.ids[k] is Some && store.ids[k]->0 > id,
        store.upsert_row(id, token).tokens == store.tokens.insert(k, token),
        store.upsert_row(id, token).last_traded == store.last_traded.insert(k, i64::MIN),
        store.upsert_row(id, token).ids == store.ids.insert(k, Some(id)),
{
    assert(!store.has(token.address));
    let free = store.released(id);
    assert(free.ids =~= store.ids);
    assert(free =~= store);
    lemma_place(store.ids, id);
    place_of(store.ids, id) as int
}

/// The token of a row at a known address stays where it is if the known ids ascend with the id of
/// the row there; in any case it keeps its last trade.
pub proof fn law_known_row_stays_where_its_id_fits(
    store: StoreView,
    id: i64,
    token: TokenView,
    p: int,
)
    requires
        store.wf(),
        0 <= p < store.tokens.len(),
        store.tokens[p].address == token.address,
        forall|q: int|
            #![trigger store.ids[q]]
            0 <= q < p && store.ids[q] is Some ==> store.ids[q]->0 < id,
        forall|q: int|
            #![trigger store.ids[q]]
            p < q < store.ids.len() && store.ids[q] is Some ==> store.ids[q]->0 > id,
    ensures
        store.upsert_row(id, token).tokens == store.tokens.update(p, token),
        store.upsert_row(id, token).last_traded == store.last_traded,
        store.upsert_row(id, token).ids == store.ids.update(p, Some(id)),
{
    assert(store.holds(token.address, p));
    lemma_entry(store, token.address, p);
    let after = store.released(id).stamped(p, id, token);
    assert(after.ids =~= store.ids.update(p, Some(id)));
    assert(after.ordered()) by {
        assert forall|q: int, r: int|
            #![trigger after.ids[q], after.ids[r]]
            0 <= q < r < after.ids.len() && after.ids[q] is Some && after.ids[r] is Some implies after.ids[q]->0
            < after.ids[r]->0 by {
            if q != p {
                assert(after.ids[q] == store.ids[q]);
            }
            if r != p {
                assert(after.ids[r] == store.ids[r]);
            }
        }
    }
}

/// Taking a database id from its token takes that id, and nothing else.
pub proof fn law_an_id_is_taken_from_one_token(store: StoreView, id: i64, p: int)
    requires
        0 <= p < store.ids.len(),
    ensures
        store.released(id).tokens == store.tokens,
        store.released(id).last_traded == store.last_traded,
        store.released(id).ids.len() == store.ids.len(),
        store.ids[p] == Some(id) ==> store.released(id).ids[p] is None,
        store.ids[p] != Some(id) ==> store.released(id).ids[p] == store.ids[p],
{
}

/// The row of a token touches that token only: the others are the same, in the same order, as
/// they were, except that one that had the database id of the row has none any more.
pub proof fn law_row_touches_one_token(store: StoreView, id: i64, token: TokenView)
    requires
        store.wf(),
    ensures
        ({
            let after = store.upsert_row(id, token);
            let p = store.position(token.address);
            &&& after.wf()
            &&& after.has(token.address)
            &&& after.without(after.position(token.address)) == (if store.has(token.address) {
                store.released(id).without(p)
            } else {
                store.released(id)
            })
        }),
{
    let after = store.upsert_row(id, token);
    let free = store.released(id);
    lemma_upsert_row(store, id, token, token.address);
    lemma_released(store, id, token.address);
    if store.has(token.address) {
        let p = store.position(token.address);
        assert(store.holds(token.address, p));
        if free.stamped(p, id, token).ordered() {
            assert(after.holds(token.address, p));
            lemma_entry(after, token.address, p);
            assert(after.without(p) =~= free.without(p));
        } else {
            lemma_without(free, p, token.address);
            lemma_placed_removed(free.without(p), id, token, store.last_traded[p]);
        }
    } else {
        lemma_placed_removed(free, id, token, NEVER_TRADED);
    }
}

/// Taking a placed token out again gives the store as it was.
proof fn lemma_placed_removed(store: StoreView, id: i64, token: TokenView, traded: i64)
    requires
        store.wf(),
        !store.has(token.address),
    ensures
        store.placed(id, token, traded).position(token.address) == place_of(store.ids, id),
        store.placed(id, token, traded).without(place_of(store.ids, id) as int) == store,
{
    let k = place_of(store.ids, id) as int;
    let after = store.placed(id, token, traded);
    lemma_place(store.ids, id);
    lemma_with_at(store, k, token, traded, Some(id), token.address);
    assert(after.holds(token.address, k));
    lemma_entry(after, token.address, k);
    assert(after.without(k) =~= store);
}

/// The token of a row is found again under its address: exactly that token, and nothing else. It
/// has the database id of the row, and was last traded when it was before.
pub proof fn law_row_is_found(store: StoreView, id: i64, token: TokenView)
    requires
        store.wf(),
    ensures
        store.upsert_row(id, token).matches(by_address(seq![token.address])) == seq![token],
        store.upsert_row(id, token).entry(token.address) == Some(
            (
                token,
                match store.entry(token.address) {
                    Some((_, traded, _)) => traded,
                    None => NEVER_TRADED,
                },
                Some(id),
            ),
        ),
{
    let after = store.upsert_row(id, token);
    lemma_upsert_row(store, id, token, token.address);
    law_known_address_finds_its_token(after, token.address);
}

/// The store holds the token of the row under the row's database id.
pub open spec fn settled(store: StoreView, row: (i64, TokenView)) -> bool {
    store.entry(row.1.address) matches Some((token, _, known)) && token == row.1 && known == Some(
        row.0,
    )
}

/// Once rows were written, each of them is settled, unless a later row has its database id or its
/// address.
pub proof fn law_written_rows_are_settled(
    store: StoreView,
    rows: Seq<(i64, TokenView)>,
    i: int,
)
    requires
        store.wf(),
        0 <= i < rows.len(),
        forall|j: int|
            #![trigger rows[j]]
            i < j < rows.len() ==> rows[j].0 != rows[i].0 && rows[j].1.address
                != rows[i].1.address,
    ensures
        settled(store.upsert_rows(rows), rows[i]),
    decreases rows.len(),
{
    let fewer = rows.drop_last();
    let before = store.upsert_rows(fewer);
    let (id, token) = rows[rows.len() - 1];
    let address = rows[i].1.address;
    lemma_upsert_rows(store, fewer);
    lemma_upsert_row(before, id, token, address);
    lemma_released(before, id, address);
    if i < rows.len() - 1 {
        assert forall|j: int| #![trigger fewer[j]] i < j < fewer.len() implies fewer[j].0
            != fewer[i].0 && fewer[j].1.address != fewer[i].1.address by {
            assert(fewer[j] == rows[j]);
            assert(fewer[i] == rows[i]);
        }
        law_written_rows_are_settled(store, fewer, i);
        assert(fewer[i] == rows[i]);
    }
}

/// Rows that are settled change nothing.
pub proof fn law_settled_rows_change_nothing(store: StoreView, rows: Seq<(i64, TokenView)>)
    requires
        store.wf(),
        forall|i: int| #![trigger rows[i]] 0 <= i < rows.len() ==> settled(store, rows[i]),
    ensures
        store.upsert_rows(rows) == store,
    decreases rows.len(),
{
    if rows.len() > 0 {
        let fewer = rows.drop_last();
        assert forall|i: int| #![trigger fewer[i]] 0 <= i < fewer.len() implies settled(
            store,
            fewer[i],
        ) by {
            assert(fewer[i] == rows[i]);
        }
        law_settled_rows_change_nothing(store, fewer);
        let row = rows[rows.len() - 1];
        assert(settled(store, row));
        assert(store.holds(row.1.address, store.position(row.1.address)));
        assert(store.upsert_row(row.0, row.1) =~= store);
    }
}

/// What holds at an address once rows were written, if no row has this address: token and last
/// trade are the same.
pub proof fn law_rows_leave_other_tokens_alone(
    store: StoreView,
    rows: Seq<(i64, TokenView)>,
    address: Seq<u8>,
)
    requires
        store.wf(),
        forall|i: int| #![trigger rows[i]] 0 <= i < rows.len() ==> rows[i].1.address != address,
    ensures
        store.upsert_rows(rows).wf(),
        match store.entry(address) {
            Some((token, traded, _)) => store.upsert_rows(rows).entry(address) matches Some(
                (t, at, _),
            ) && t == token && at == traded,
            None => store.upsert_rows(rows).entry(address) is None,
        },
    decreases rows.len(),
{
    lemma_upsert_rows(store, rows);
    if rows.len() > 0 {
        let fewer = rows.drop_last();
        assert forall|i: int| #![trigger fewer[i]] 0 <= i < fewer.len() implies fewer[i].1.address
            != address by {
            assert(fewer[i] == rows[i]);
        }
        law_rows_leave_other_tokens_alone(store, fewer, address);
        let before = store.upsert_rows(fewer);
        let (id, token) = rows[rows.len() - 1];
        lemma_upsert_row(before, id, token, address);
        lemma_released(before, id, address);
    }
}

/// What holds at an address once rows were written: the token of the last row with this address,
/// and the last trade that was known before.
pub proof fn law_last_row_wins(store: StoreView, rows: Seq<(i64, TokenView)>, i: int)
    requires
        store.wf(),
        0 <= i < rows.len(),
        forall|j: int|
            #![trigger rows[j]]
            i < j < rows.len() ==> rows[j].1.address != rows[i].1.address,
    ensures
        store.upsert_rows(rows).wf(),
        store.upsert_rows(rows).entry(rows[i].1.address) matches Some((token, traded, _)) && token
            == rows[i].1 && traded == (match store.entry(rows[i].1.address) {
            Some((_, before, _)) => before,
            None => NEVER_TRADED,
        }),
    decreases rows.len(),
{
    let fewer = rows.drop_last();
    let before = store.upsert_rows(fewer);
    let (id, token) = rows[rows.len() - 1];
    let address = rows[i].1.address;
    lemma_upsert_rows(store, rows);
    lemma_upsert_rows(store, fewer);
    lemma_upsert_row(before, id, token, address);
    lemma_released(before, id, address);
    if i < rows.len() - 1 {
        assert forall|j: int| #![trigger fewer[j]] i < j < fewer.len() implies fewer[j].1.address
            != fewer[i].1.address by {
            assert(fewer[j] == rows[j]);
            assert(fewer[i] == rows[i]);
        }
        law_last_row_wins(store, fewer, i);
        assert(fewer[i] == rows[i]);
    } else {
        lemma_traded_is_kept(store, fewer, address);
    }
}

/// Writing rows does not change when a known token was last traded; a new one was never traded.
proof fn lemma_traded_is_kept(store: StoreView, rows: Seq<(i64, TokenView)>, address: Seq<u8>)
    requires
        store.wf(),
    ensures
        match store.entry(address) {
            Some((_, traded, _)) => store.upsert_rows(rows).entry(address) matches Some((_, at, _))
                && at == traded,
            None => store.upsert_rows(rows).entry(address) matches Some((_, at, _)) ==> at
                == NEVER_TRADED,
        },
    decreases rows.len(),
{
    if rows.len() > 0 {
        let fewer = rows.drop_last();
        lemma_traded_is_kept(store, fewer, address);
        lemma_upsert_rows(store, fewer);
        lemma_upsert_row(store.upsert_rows(fewer), rows.last().0, rows.last().1, address);
        lemma_released(store.upsert_rows(fewer), rows.last().0, address);
    }
}

/// Those of the rows whose address the store does not know, in order.
pub open spec fn new_rows(store: StoreView, rows: Seq<(i64, TokenView)>) -> Seq<(i64, TokenView)> {
    rows.filter(|row: (i64, TokenView)| !store.has(row.1.address))
}

/// The rows agree with the order in which the tokens stand: with `ids`, the ids that the tokens
/// are to have, the known ids ascend, each row of a known token has the id that its token is to
/// have, and the rows of new tokens come in ascending order behind.
pub open spec fn in_keeping(
    store: StoreView,
    rows: Seq<(i64, TokenView)>,
    ids: Seq<Option<i64>>,
) -> bool {
    &&& ids.len() == store.ids.len()
    &&& ascending_ids(ids)
    &&& forall|p: int|
        #![trigger store.ids[p]]
        #![trigger ids[p]]
        0 <= p < ids.len() && store.ids[p] is Some ==> ids[p] == store.ids[p]
    &&& forall|i: int|
        #![trigger rows[i]]
        0 <= i < rows.len() && store.has(rows[i].1.address) ==> ids[store.position(
            rows[i].1.address,
        )] == Some(rows[i].0)
    &&& forall|i: int, p: int|
        #![trigger rows[i], ids[p]]
        0 <= i < rows.len() && !store.has(rows[i].1.address) && 0 <= p < ids.len() && ids[p] is Some
            ==> ids[p]->0 < rows[i].0
    &&& forall|i: int, j: int|
        #![trigger rows[i], rows[j]]
        0 <= i < j < rows.len() && !store.has(rows[i].1.address) && !store.has(rows[j].1.address)
            ==> rows[i].0 < rows[j].0 && rows[i].1.address != rows[j].1.address
}

/// Rows that agree with the order of the tokens move none of them: every token keeps its place
/// and its last trade, and each new row is appended, in row order, as never traded.
#[verifier::spinoff_prover]
pub proof fn law_rows_in_keeping_move_nothing(
    store: StoreView,
    rows: Seq<(i64, TokenView)>,
    ids: Seq<Option<i64>>,
)
    requires
        store.wf(),
        in_keeping(store, rows, ids),
    ensures
        ({
            let after = store.upsert_rows(rows);
            let added = new_rows(store, rows);
            let n = store.tokens.len() as int;
            &&& after.wf()
            &&& after.tokens.len() == n + added.len()
            &&& after.last_traded.take(n) == store.last_traded
            &&& forall|p: int|
                #![trigger after.tokens[p]]
                #![trigger after.ids[p]]
                0 <= p < n ==> {
                    &&& after.tokens[p].address == store.tokens[p].address
                    &&& after.ids[p] == store.ids[p] || after.ids[p] == ids[p]
                }
            &&& forall|i: int|
                #![trigger added[i]]
                0 <= i < added.len() ==> {
                    &&& after.tokens[n + i] == added[i].1
                    &&& after.last_traded[n + i] == NEVER_TRADED
                    &&& after.ids[n + i] == Some(added[i].0)
                }
        }),
    decreases rows.len(),
{
    reveal(Seq::filter);
    let n = store.tokens.len() as int;
    lemma_upsert_rows(store, rows);
    if rows.len() == 0 {
        assert(store.last_traded.take(n) =~= store.last_traded);
    } else {
        let fewer = rows.drop_last();
        let m = rows.len() - 1;
        assert forall|i: int| 0 <= i < m implies fewer[i] == #[trigger] rows[i] by {}
        assert(in_keeping(store, fewer, ids)) by {
            assert forall|i: int|
                #![trigger fewer[i]]
                0 <= i < fewer.len() && store.has(fewer[i].1.address) implies ids[store.position(
                fewer[i].1.address,
            )] == Some(fewer[i].0) by {
                assert(fewer[i] == rows[i]);
            }
            assert forall|i: int, p: int|
                #![trigger fewer[i], ids[p]]
                0 <= i < fewer.len() && !store.has(fewer[i].1.address) && 0 <= p < ids.len()
                    && ids[p] is Some implies ids[p]->0 < fewer[i].0 by {
                assert(fewer[i] == rows[i]);
            }
            assert forall|i: int, j: int|
                #![trigger fewer[i], fewer[j]]
                0 <= i < j < fewer.len() && !store.has(fewer[i].1.address) && !store.has(
                    fewer[j].1.address,
                ) implies fewer[i].0 < fewer[j].0 && fewer[i].1.address
                != fewer[j].1.address by {
                assert(fewer[i] == rows[i]);
                assert(fewer[j] == rows[j]);
            }
        }
        law_rows_in_keeping_move_nothing(store, fewer, ids);
        lemma_upsert_rows(store, fewer);
        let before = store.upsert_rows(fewer);
        let earlier = new_rows(store, fewer);
        let (id, token) = rows[m];
        assert forall|i: int| #![trigger earlier[i]] 0 <= i < earlier.len() implies {
            &&& earlier[i].0 < id || store.has(token.address)
            &&& earlier[i].1.address != token.address || store.has(token.address)
            &&& !store.has(earlier[i].1.address)
            &&& forall|p: int|
                #![trigger ids[p]]
                0 <= p < ids.len() && ids[p] is Some ==> ids[p]->0 < earlier[i].0
        } by {
            let keep = |row: (i64, TokenView)| !store.has(row.1.address);
            fewer.lemma_filter_pred(keep, i);
            assert(earlier.contains(earlier[i]));
            fewer.lemma_filter_contains_rev(keep, earlier[i]);
            let k = choose|k: int| 0 <= k < fewer.len() && fewer[k] == earlier[i];
            assert(rows[k] == earlier[i]);
            assert(rows[m] == (id, token));
        }
        // What the tokens have for ids: the old ones those of `ids`, as far as known, and the
        // appended ones those of their rows.
        assert forall|q: int| #![trigger before.ids[q]] 0 <= q < before.ids.len() implies (if q < n {
            before.ids[q] is Some ==> before.ids[q] == ids[q]
        } else {
            before.ids[q] == Some(earlier[q - n].0)
        }) by {
            if q >= n {
                assert(before.ids[n + (q - n)] == Some(earlier[q - n].0));
            } else {
                assert(before.tokens[q].address == store.tokens[q].address);
            }
        }
        if store.has(token.address) {
            lemma_kept_row(store, before, earlier, ids, id, token);
            let after = before.upsert_row(id, token);
            let k = store.position(token.address);
            assert(store.holds(token.address, k));
            assert(new_rows(store, rows) =~= earlier);
            assert(after.last_traded == before.last_traded);
            assert(after.tokens =~= before.tokens.update(k, token));
            assert(after.ids =~= before.ids.update(k, Some(id)));
            assert forall|p: int|
                #![trigger after.tokens[p]]
                #![trigger after.ids[p]]
                0 <= p < n implies {
                &&& after.tokens[p].address == store.tokens[p].address
                &&& after.ids[p] == store.ids[p] || after.ids[p] == ids[p]
            } by {
                assert(before.tokens[p].address == store.tokens[p].address);
                if p == k {
                    assert(rows[m] == (id, token));
                    assert(ids[k] == Some(id));
                }
            }
            assert forall|i: int| #![trigger earlier[i]] 0 <= i < earlier.len() implies {
                &&& after.tokens[n + i] == earlier[i].1
                &&& after.last_traded[n + i] == NEVER_TRADED
                &&& after.ids[n + i] == Some(earlier[i].0)
            } by {
                assert(before.tokens[n + i] == earlier[i].1);
            }
        } else {
            assert forall|q: int| !before.holds(token.address, q) by {
                if before.holds(token.address, q) {
                    if q < n {
                        assert(store.holds(token.address, q));
                    } else {
                        assert(before.tokens[n + (q - n)] == earlier[q - n].1);
                    }
                }
            }
            assert forall|q: int|
                #![trigger before.ids[q]]
                0 <= q < before.ids.len() && before.ids[q] is Some implies before.ids[q]->0
                < id by {
                if q < n {
                    assert(rows[m] == (id, token));
                    assert(ids[q]->0 < rows[m].0);
                } else {
                    assert(earlier[q - n].0 < id);
                }
            }
            assert(before.released(id).ids =~= before.ids);
            assert(before.released(id) =~= before);
            lemma_place_unique(before.ids, id, before.ids.len() as int);
            let after = before.upsert_row(id, token);
            let added = new_rows(store, rows);
            assert(added =~= earlier.push((id, token)));
            assert(after.tokens =~= before.tokens.push(token));
            assert(after.last_traded =~= before.last_traded.push(NEVER_TRADED));
            assert(after.ids =~= before.ids.push(Some(id)));
            assert(after.last_traded.take(n) =~= before.last_traded.take(n));
            assert forall|i: int| #![trigger added[i]] 0 <= i < added.len() implies {
                &&& after.tokens[n + i] == added[i].1
                &&& after.last_traded[n + i] == NEVER_TRADED
                &&& after.ids[n + i] == Some(added[i].0)
            } by {
                if i < earlier.len() {
                    assert(added[i] == earlier[i]);
                }
            }
        }
    }
}

/// The row of a known token that agrees with the order of the tokens leaves the token in place.
proof fn lemma_kept_row(
    store: StoreView,
    before: StoreView,
    earlier: Seq<(i64, TokenView)>,
    ids: Seq<Option<i64>>,
    id: i64,
    token: TokenView,
)
    requires
        store.wf(),
        before.wf(),
        ids.len() == store.ids.len(),
        ascending_ids(ids),
        store.has(token.address),
        ids[store.position(token.address)] == Some(id),
        before.tokens.len() == store.tokens.len() + earlier.len(),
        forall|p: int|
            #![trigger before.tokens[p]]
            0 <= p < store.tokens.len() ==> before.tokens[p].address == store.tokens[p].address,
        forall|q: int|
            #![trigger before.ids[q]]
            0 <= q < before.ids.len() ==> (if q < store.tokens.len() {
                before.ids[q] is Some ==> before.ids[q] == ids[q]
            } else {
                before.ids[q] == Some(earlier[q - store.tokens.len()].0)
            }),
        forall|i: int|
            #![trigger earlier[i]]
            0 <= i < earlier.len() ==> forall|p: int|
                #![trigger ids[p]]
                0 <= p < ids.len() && ids[p] is Some ==> ids[p]->0 < earlier[i].0,
    ensures
        before.upsert_row(id, token) == before.stamped(
            store.position(token.address),
            id,
            token,
        ),
{
    let n = store.tokens.len() as int;
    let p = store.position(token.address);
    assert(store.holds(token.address, p));
    assert(before.tokens[p].address == token.address);
    assert(before.holds(token.address, p));
    lemma_entry(before, token.address, p);
    let free = before.released(id);
    assert forall|q: int| 0 <= q < before.ids.len() && q != p implies #[trigger] free.ids[q]
        == before.ids[q] by {
        if before.ids[q] == Some(id) {
            if q < n {
                assert(ids[q] == Some(id) && ids[p] == Some(id));
            } else {
                assert(earlier[q - n].0 == id);
                assert(ids[p]->0 < earlier[q - n].0);
            }
        }
    }
    let after = free.stamped(p, id, token);
    assert(after.ids =~= before.ids.update(p, Some(id)));
    assert forall|q: int, r: int|
        #![trigger after.ids[q], after.ids[r]]
        0 <= q < r < after.ids.len() && after.ids[q] is Some && after.ids[r] is Some implies after.ids[q]->0
        < after.ids[r]->0 by {
        if q == p || r == p {
            if r < n {
                assert(after.ids[q] == ids[q] && after.ids[r] == ids[r]);
            } else {
                assert(before.ids[r] == Some(earlier[r - n].0));
                assert(ids[p]->0 < earlier[r - n].0);
            }
        } else {
            assert(before.ids[q]->0 < before.ids[r]->0);
        }
    }
    assert(after =~= before.stamped(p, id, token));
}

/// Rows of new tokens whose ids are larger than every known one, in ascending order, are appended
/// in row order, as never traded; all that was there stays as it was.
pub proof fn law_larger_ids_are_appended(store: StoreView, rows: Seq<(i64, TokenView)>)
    requires
        store.wf(),
        forall|i: int|
            #![trigger rows[i]]
            0 <= i < rows.len() ==> !store.has(rows[i].1.address),
        forall|i: int, p: int|
            #![trigger rows[i], store.ids[p]]
            0 <= i < rows.len() && 0 <= p < store.ids.len() && store.ids[p] is Some
                ==> store.ids[p]->0 < rows[i].0,
        forall|i: int, j: int|
            #![trigger rows[i], rows[j]]
            0 <= i < j < rows.len() ==> rows[i].0 < rows[j].0 && rows[i].1.address
                != rows[j].1.address,
    ensures
        ({
            let after = store.upsert_rows(rows);
            &&& after.tokens == store.tokens + rows.map_values(|row: (i64, TokenView)| row.1)
            &&& after.last_traded == store.last_traded + Seq::new(
                rows.len(),
                |i: int| NEVER_TRADED,
            )
            &&& after.ids == store.ids + rows.map_values(|row: (i64, TokenView)| Some(row.0))
        }),
{
    let after = store.upsert_rows(rows);
    let n = store.tokens.len() as int;
    assert(in_keeping(store, rows, store.ids));
    law_rows_in_keeping_move_nothing(store, rows, store.ids);
    lemma_all_new(store, rows);
    assert forall|p: int| 0 <= p < n implies after.tokens[p] == store.tokens[p] by {
        let address = store.tokens[p].address;
        assert(store.holds(address, p));
        lemma_entry(store, address, p);
        assert(after.tokens[p].address == address);
        assert(after.holds(address, p));
        lemma_entry(after, address, p);
        assert forall|i: int| #![trigger rows[i]] 0 <= i < rows.len() implies rows[i].1.address
            != address by {
            assert(!store.has(rows[i].1.address));
        }
        law_rows_leave_other_tokens_alone(store, rows, address);
    }
    assert forall|p: int| 0 <= p < n implies after.last_traded[p] == store.last_traded[p] by {
        assert(after.last_traded.take(n)[p] == store.last_traded[p]);
    }
    assert forall|i: int| 0 <= i < rows.len() implies after.tokens[n + i] == #[trigger] rows[i].1
        && after.ids[n + i] == Some(rows[i].0) && after.last_traded[n + i] == NEVER_TRADED by {
        assert(new_rows(store, rows)[i] == rows[i]);
    }
    let tokens = store.tokens + rows.map_values(|row: (i64, TokenView)| row.1);
    assert forall|q: int| 0 <= q < tokens.len() implies after.tokens[q] == tokens[q] by {
        if q >= n {
            assert(after.tokens[n + (q - n)] == rows[q - n].1);
        }
    }
    assert(after.tokens =~= tokens);
    let known = store.ids + rows.map_values(|row: (i64, TokenView)| Some(row.0));
    assert forall|q: int| 0 <= q < known.len() implies after.ids[q] == known[q] by {
        if q >= n {
            assert(after.ids[n + (q - n)] == Some(rows[q - n].0));
        } else {
            assert(after.tokens[q].address == store.tokens[q].address);
        }
    }
    assert(after.ids =~= known);
    let traded = store.last_traded + Seq::new(rows.len(), |i: int| NEVER_TRADED);
    assert forall|q: int| 0 <= q < traded.len() implies after.last_traded[q] == traded[q] by {
        if q >= n {
            assert(after.tokens[n + (q - n)] == rows[q - n].1);
        }
    }
    assert(after.last_traded =~= traded);
}

/// Where the address of every row is new, the new rows are all of them.
proof fn lemma_all_new(store: StoreView, rows: Seq<(i64, TokenView)>)
    requires
        forall|i: int|
            #![trigger rows[i]]
            0 <= i < rows.len() ==> !store.has(rows[i].1.address),
    ensures
        new_rows(store, rows) == rows,
    decreases rows.len(),
{
    reveal(Seq::filter);
    if rows.len() > 0 {
        let fewer = rows.drop_last();
        assert forall|i: int| #![trigger fewer[i]] 0 <= i < fewer.len() implies !store.has(
            fewer[i].1.address,
        ) by {
            assert(fewer[i] == rows[i]);
        }
        lemma_all_new(store, fewer);
        assert(!store.has(rows[rows.len() - 1].1.address));
        assert(fewer.push(rows.last()) =~= rows);
    } else {
        assert(new_rows(store, rows) =~= rows);
    }
}

} // verus!
