//! What a query is answered, said in terms of the query's own fields.

use crate::model::StoreView;
use crate::query::{Page, QualityRange, TokenQuery};
use crate::store_laws::{law_page_is_a_slice_of_the_matches, law_selected_exactly_and_in_order};
use crate::token::TokenView;
use vstd::prelude::*;

verus! {

/// A token is found exactly if its address is listed, its quality, read as a signed number, lies
/// between the bounds, and its last trade is later than the threshold, each as far as the query
/// gives it. Tokens are found in the order in which they stand.
pub proof fn law_query_finds_exactly_what_it_asks_for(store: StoreView, query: TokenQuery)
    ensures
        ({
            let found = store.selected(query.filter());
            let all = store.matches(query.filter());
            &&& forall|i: int, j: int| 0 <= i < j < found.len() ==> found[i] < found[j]
            &&& forall|p: int| #[trigger]
                found.contains(p) <==> {
                    &&& 0 <= p < store.tokens.len()
                    &&& query.addresses matches Some(listed) ==> exists|k: int|
                        0 <= k < listed@.len() && (#[trigger] listed@[k])@
                            == store.tokens[p].address
                    &&& query.quality_range.min matches Some(min) ==> if store.tokens[p].quality
                        < 0x8000_0000 {
                        min <= store.tokens[p].quality
                    } else {
                        min <= store.tokens[p].quality - 0x1_0000_0000
                    }
                    &&& query.quality_range.max matches Some(max) ==> if store.tokens[p].quality
                        < 0x8000_0000 {
                        store.tokens[p].quality <= max
                    } else {
                        store.tokens[p].quality - 0x1_0000_0000 <= max
                    }
                    &&& query.last_traded_ts_threshold matches Some(t) ==> store.last_traded[p]
                        > t.secs() * 1_000_000 + t.nanos() as int / 1000
                }
            &&& all.len() == found.len()
            &&& forall|i: int|
                #![trigger all[i]]
                0 <= i < found.len() ==> all[i] == store.tokens[found[i]]
        }),
{
    let filter = query.filter();
    let found = store.selected(filter);
    law_selected_exactly_and_in_order(store, filter);
    assert forall|p: int| 0 <= p < store.tokens.len() implies (#[trigger] store.selects(filter, p)
        <==> {
        &&& query.addresses matches Some(listed) ==> exists|k: int|
            0 <= k < listed@.len() && (#[trigger] listed@[k])@ == store.tokens[p].address
        &&& query.quality_range.min matches Some(min) ==> if store.tokens[p].quality
            < 0x8000_0000 {
            min <= store.tokens[p].quality
        } else {
            min <= store.tokens[p].quality - 0x1_0000_0000
        }
        &&& query.quality_range.max matches Some(max) ==> if store.tokens[p].quality
            < 0x8000_0000 {
            store.tokens[p].quality <= max
        } else {
            store.tokens[p].quality - 0x1_0000_0000 <= max
        }
        &&& query.last_traded_ts_threshold matches Some(t) ==> store.last_traded[p] > t.secs()
            * 1_000_000 + t.nanos() as int / 1000
    }) by {
        if let Some(listed) = query.addresses {
            let wanted = filter.addresses->0;
            let address = store.tokens[p].address;
            if wanted.contains(address) {
                let k = choose|k: int| 0 <= k < wanted.len() && wanted[k] == address;
                assert(listed@[k]@ == address);
            }
            if exists|k: int| 0 <= k < listed@.len() && (#[trigger] listed@[k])@ == address {
                let k = choose|k: int| 0 <= k < listed@.len() && (#[trigger] listed@[k])@ == address;
                assert(wanted[k] == address);
            }
        }
    }
}

/// What a query asks of a token is what its own fields say.
pub proof fn law_filter_is_the_query(query: TokenQuery)
    ensures
        query.filter().quality.min == query.quality_range.min,
        query.filter().quality.max == query.quality_range.max,
        query.filter().addresses is Some <==> query.addresses is Some,
        query.addresses matches Some(listed) ==> {
            let asked = query.filter().addresses->0;
            &&& asked.len() == listed@.len()
            &&& forall|k: int| #![trigger asked[k]] 0 <= k < asked.len() ==> asked[k] == listed@[k]@
        },
        query.filter().traded_after is Some <==> query.last_traded_ts_threshold is Some,
        query.last_traded_ts_threshold matches Some(t) ==> query.filter().traded_after->0
            == t.secs() * 1_000_000 + t.nanos() as int / 1000,
{
}

/// Without pagination the answer is all that was found. With it, page number `page` of
/// `page_size` entries each leaves out the `page * page_size` entries before it and holds the
/// next `page_size` ones, as far as there are any. Negative numbers count as zero.
pub proof fn law_query_answers_its_page(store: StoreView, query: TokenQuery)
    ensures
        ({
            let all = store.matches(query.filter());
            let shown = store.answer(query.filter(), query.page());
            &&& query.pagination is None ==> shown == all
            &&& query.pagination matches Some(params) ==> {
                let product = params.page * params.page_size;
                let skipped = if product > 0 {
                    product
                } else {
                    0
                };
                &&& params.page_size <= 0 ==> shown.len() == 0
                &&& skipped >= all.len() ==> shown.len() == 0
                &&& params.page_size > 0 && skipped < all.len() ==> shown.len() == (if params.page_size
                    < all.len() - skipped {
                    params.page_size as int
                } else {
                    all.len() - skipped
                })
                &&& forall|i: int|
                    #![trigger shown[i]]
                    0 <= i < shown.len() ==> shown[i] == all[skipped + i]
            }
        }),
{
    let all = store.matches(query.filter());
    law_page_is_a_slice_of_the_matches(store, query.filter(), query.page());
    assert(all.subrange(0, all.len() as int) =~= all);
}

/// What is found, and with it the total, does not depend on the page.
pub proof fn law_total_does_not_depend_on_the_page(
    store: StoreView,
    left: TokenQuery,
    right: TokenQuery,
)
    requires
        left.addresses == right.addresses,
        left.quality_range == right.quality_range,
        left.last_traded_ts_threshold == right.last_traded_ts_threshold,
    ensures
        store.matches(left.filter()) == store.matches(right.filter()),
{
}

/// A page shows the entries behind those that it leaves out, and no more than its limit.
pub proof fn law_page_shows_its_part<T>(page: Page, items: Seq<T>)
    ensures
        page.of(items).len() == (if page.offset >= items.len() {
            0
        } else {
            match page.limit {
                Some(limit) if limit < items.len() - page.offset => limit as int,
                _ => items.len() - page.offset,
            }
        }),
        forall|i: int|
            #![trigger page.of(items)[i]]
            0 <= i < page.of(items).len() ==> page.of(items)[i] == items[page.offset + i],
{
}

/// A quality lies in a range exactly if it is not below the lower bound and not above the upper
/// one, as far as these are given.
pub proof fn law_range_admits_what_lies_between(range: QualityRange, quality: int)
    ensures
        range.admits(quality) <==> !(range.min is Some && quality < range.min->0) && !(
        range.max is Some && quality > range.max->0),
{
}

} // verus!
