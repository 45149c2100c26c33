use tycho_token_cache::cache::TokenCache;
use tycho_token_cache::chain::Chain;
use tycho_token_cache::error::StorageError;
use tycho_token_cache::query::{PaginationParams, QualityRange, TokenQuery, WithTotal};
use tycho_token_cache::timestamp::Timestamp;
use tycho_token_cache::token::{Address, Token};

fn address(seed: u8) -> Address {
    Address::new([seed; 20].to_vec())
}

fn make_token(seed: u8, quality: u32) -> Token {
    Token::new(
        &address(seed),
        &format!("TOK{seed}"),
        18,
        0,
        &[Some(64_000)],
        Chain::Ethereum,
        quality,
    )
}

fn ts(secs: i64) -> Timestamp {
    Timestamp::from_timestamp(secs, 0).unwrap()
}

fn base_query() -> TokenQuery {
    TokenQuery {
        chain: Chain::Ethereum,
        addresses: None,
        quality_range: QualityRange::any(),
        last_traded_ts_threshold: None,
        pagination: None,
    }
}

fn store_with_tokens(qualities: &[u32]) -> TokenCache {
    let mut cache = TokenCache::with_empty_chains(&[Chain::Ethereum]);
    let tokens: Vec<Token> = qualities
        .iter()
        .enumerate()
        .map(|(position, quality)| make_token(position as u8, *quality))
        .collect();
    cache.add_tokens(&tokens);
    cache
}

fn result_symbols(result: &WithTotal<Vec<Token>>) -> Vec<&str> {
    result
        .entity
        .iter()
        .map(|token| token.symbol.as_str())
        .collect()
}

#[test]
fn test_query_all_preserves_insertion_order() {
    let cache = store_with_tokens(&[100, 0, 50]);

    let result = cache.query_tokens(&base_query()).unwrap();

    assert_eq!(result.total, Some(3));
    assert_eq!(result_symbols(&result), ["TOK0", "TOK1", "TOK2"]);
}

#[test]
fn test_quality_range_filters() {
    let cache = store_with_tokens(&[100, 0, 50, 75, 10]);

    let min_only = cache
        .query_tokens(&TokenQuery { quality_range: QualityRange::min_only(50), ..base_query() })
        .unwrap();
    assert_eq!(min_only.total, Some(3));
    assert_eq!(result_symbols(&min_only), ["TOK0", "TOK2", "TOK3"]);

    let min_max = cache
        .query_tokens(&TokenQuery { quality_range: QualityRange::new(10, 75), ..base_query() })
        .unwrap();
    assert_eq!(result_symbols(&min_max), ["TOK2", "TOK3", "TOK4"]);
}

#[test]
fn test_update_moves_quality_index_entry() {
    let mut cache = store_with_tokens(&[100, 100]);
    let mut updated = make_token(0, 5);
    updated.symbol = "TOK0v2".to_string();
    cache.upsert_tokens(&[updated]);

    let high = cache
        .query_tokens(&TokenQuery { quality_range: QualityRange::min_only(50), ..base_query() })
        .unwrap();
    assert_eq!(result_symbols(&high), ["TOK1"]);

    let low = cache
        .query_tokens(&TokenQuery { quality_range: QualityRange::new(0, 49), ..base_query() })
        .unwrap();
    assert_eq!(result_symbols(&low), ["TOK0v2"]);
}

#[test]
fn test_add_does_not_overwrite_existing() {
    let mut cache = store_with_tokens(&[100]);
    let mut duplicate = make_token(0, 5);
    duplicate.symbol = "SHOULD_NOT_APPEAR".to_string();
    cache.add_tokens(&[duplicate]);

    let result = cache.query_tokens(&base_query()).unwrap();
    assert_eq!(result_symbols(&result), ["TOK0"]);
    assert_eq!(result.entity[0].quality, 100);
}

#[test]
fn test_last_traded_filter_excludes_never_and_older() {
    let mut cache = store_with_tokens(&[100, 100, 100]);
    cache.update_last_traded(
        &Chain::Ethereum,
        &[(address(0), ts(1_000)), (address(1), ts(2_000))],
    );

    let result = cache
        .query_tokens(&TokenQuery { last_traded_ts_threshold: Some(ts(1_000)), ..base_query() })
        .unwrap();

    // TOK0 traded exactly at the threshold (strict `>` excludes it), TOK2 never.
    assert_eq!(result.total, Some(1));
    assert_eq!(result_symbols(&result), ["TOK1"]);
}

#[test]
fn test_last_traded_is_monotonic() {
    let mut cache = store_with_tokens(&[100]);
    cache.update_last_traded(&Chain::Ethereum, &[(address(0), ts(2_000))]);
    cache.update_last_traded(&Chain::Ethereum, &[(address(0), ts(1_000))]);

    let result = cache
        .query_tokens(&TokenQuery { last_traded_ts_threshold: Some(ts(1_500)), ..base_query() })
        .unwrap();
    assert_eq!(result.total, Some(1));
}

#[test]
fn test_pagination_boundaries() {
    let cache = store_with_tokens(&[100, 100, 100, 100, 100]);

    let page = |page_number: i64| {
        cache
            .query_tokens(&TokenQuery {
                pagination: Some(PaginationParams::new(page_number, 2)),
                ..base_query()
            })
            .unwrap()
    };

    assert_eq!(result_symbols(&page(0)), ["TOK0", "TOK1"]);
    assert_eq!(result_symbols(&page(1)), ["TOK2", "TOK3"]);
    assert_eq!(result_symbols(&page(2)), ["TOK4"]);
    assert!(page(3).entity.is_empty());
    // Total is independent of the requested page.
    assert_eq!(page(3).total, Some(5));
}

#[test]
fn test_pagination_with_last_traded_filter() {
    let mut cache = store_with_tokens(&[100, 100, 100, 100]);
    for seed in [0u8, 2, 3] {
        cache.update_last_traded(&Chain::Ethereum, &[(address(seed), ts(5_000))]);
    }

    let result = cache
        .query_tokens(&TokenQuery {
            last_traded_ts_threshold: Some(ts(1_000)),
            pagination: Some(PaginationParams::new(1, 2)),
            ..base_query()
        })
        .unwrap();

    assert_eq!(result.total, Some(3));
    assert_eq!(result_symbols(&result), ["TOK3"]);
}

#[test]
fn test_address_filter_orders_by_insertion_and_ignores_unknown() {
    let cache = store_with_tokens(&[100, 100, 100]);

    let result = cache
        .query_tokens(&TokenQuery {
            addresses: Some(vec![address(2), address(0), address(9)]),
            ..base_query()
        })
        .unwrap();

    assert_eq!(result.total, Some(2));
    assert_eq!(result_symbols(&result), ["TOK0", "TOK2"]);
}

#[test]
fn test_address_and_quality_filters_combine() {
    let cache = store_with_tokens(&[100, 10, 100]);

    let result = cache
        .query_tokens(&TokenQuery {
            addresses: Some(vec![address(0), address(1)]),
            quality_range: QualityRange::min_only(50),
            ..base_query()
        })
        .unwrap();

    assert_eq!(result_symbols(&result), ["TOK0"]);
}

#[test]
fn test_unknown_chain_is_an_error() {
    let cache = store_with_tokens(&[100]);
    let result = cache.query_tokens(&TokenQuery { chain: Chain::Base, ..base_query() });
    assert!(matches!(result, Err(StorageError::NotFound(_, _))));
}

#[test]
fn unknown_chain_error_names_the_chain() {
    let cache = store_with_tokens(&[100]);
    match cache.query_tokens(&TokenQuery { chain: Chain::Base, ..base_query() }) {
        Err(StorageError::NotFound(kind, name)) => {
            assert_eq!(kind, "Chain");
            assert_eq!(name, "base");
        }
        other => panic!("unexpected {other:?}"),
    }
}

#[test]
fn unknown_chain_is_an_error_before_the_query_is_looked_at() {
    let cache = store_with_tokens(&[100]);
    let result = cache.query_tokens(&TokenQuery {
        chain: Chain::Base,
        quality_range: QualityRange::new(9, 1),
        pagination: Some(PaginationParams::new(i64::MAX, i64::MAX)),
        ..base_query()
    });
    assert!(result.is_err());
}

#[test]
fn consecutive_pages_make_up_the_result() {
    let mut cache = store_with_tokens(&[60, 10, 60, 60, 10, 60, 60]);
    for seed in 0..7u8 {
        cache.update_last_traded(&Chain::Ethereum, &[(address(seed), ts(10 + seed as i64))]);
    }
    let query = |pagination: Option<PaginationParams>, threshold: Option<Timestamp>| {
        cache
            .query_tokens(&TokenQuery {
                quality_range: QualityRange::min_only(50),
                last_traded_ts_threshold: threshold,
                pagination,
                ..base_query()
            })
            .unwrap()
    };
    for threshold in [None, Some(ts(10))] {
        let whole = query(None, threshold);
        for size in 1..7i64 {
            let mut swept: Vec<String> = vec![];
            for page in 0..7i64 {
                let part = query(Some(PaginationParams::new(page, size)), threshold);
                assert_eq!(part.total, whole.total);
                assert!(part.entity.len() <= size as usize);
                swept.extend(part.entity.iter().map(|token| token.symbol.clone()));
            }
            assert_eq!(swept, result_symbols(&whole));
        }
    }
}

#[test]
fn negative_and_empty_pages_count_as_zero() {
    let cache = store_with_tokens(&[100, 100, 100]);
    let query = |page: i64, page_size: i64| {
        cache
            .query_tokens(&TokenQuery {
                pagination: Some(PaginationParams::new(page, page_size)),
                ..base_query()
            })
            .unwrap()
    };
    assert_eq!(result_symbols(&query(-1, 2)), ["TOK0", "TOK1"]);
    assert!(query(0, 0).entity.is_empty());
    assert!(query(0, -5).entity.is_empty());
    assert!(query(-3, -1).entity.is_empty());
    assert_eq!(query(-3, -1).total, Some(3));
    assert!(query(1, i64::MAX).entity.is_empty());
    assert_eq!(result_symbols(&query(0, i64::MAX)), ["TOK0", "TOK1", "TOK2"]);
    assert_eq!(PaginationParams::new(3, 50).offset(), 150);
}

#[test]
fn negative_pages_count_as_zero_with_a_traded_filter_too() {
    let mut cache = store_with_tokens(&[100, 100]);
    cache.update_last_traded(&Chain::Ethereum, &[(address(0), ts(5)), (address(1), ts(6))]);
    let result = cache
        .query_tokens(&TokenQuery {
            last_traded_ts_threshold: Some(ts(1)),
            pagination: Some(PaginationParams::new(-4, 1)),
            ..base_query()
        })
        .unwrap();
    assert_eq!(result_symbols(&result), ["TOK0"]);
    assert_eq!(result.total, Some(2));
}

#[test]
fn filters_combine_as_an_intersection() {
    let mut cache = store_with_tokens(&[100, 10, 100, 100]);
    for seed in [0u8, 1, 2] {
        cache.update_last_traded(&Chain::Ethereum, &[(address(seed), ts(5_000))]);
    }
    let result = cache
        .query_tokens(&TokenQuery {
            addresses: Some(vec![address(3), address(2), address(1)]),
            quality_range: QualityRange::min_only(50),
            last_traded_ts_threshold: Some(ts(1_000)),
            ..base_query()
        })
        .unwrap();
    assert_eq!(result.total, Some(1));
    assert_eq!(result_symbols(&result), ["TOK2"]);
}

#[test]
fn repeated_and_unknown_addresses_do_not_matter() {
    let cache = store_with_tokens(&[100, 100]);
    let ask = |addresses: Vec<Address>| {
        cache
            .query_tokens(&TokenQuery { addresses: Some(addresses), ..base_query() })
            .unwrap()
    };
    assert_eq!(result_symbols(&ask(vec![address(1), address(1), address(7), address(0)])), [
        "TOK0", "TOK1"
    ]);
    assert_eq!(ask(vec![address(7)]).total, Some(0));
    assert_eq!(ask(vec![]).total, Some(0));
    // A prefix of a known address is not that address.
    assert_eq!(ask(vec![Address::new([0u8; 19].to_vec())]).total, Some(0));
}

#[test]
fn quality_bounds_are_included_and_may_be_one_sided() {
    let cache = store_with_tokens(&[9, 10, 75, 76]);
    let ask = |quality_range: QualityRange| {
        cache.query_tokens(&TokenQuery { quality_range, ..base_query() }).unwrap()
    };
    assert_eq!(result_symbols(&ask(QualityRange::new(10, 75))), ["TOK1", "TOK2"]);
    assert_eq!(result_symbols(&ask(QualityRange { min: None, max: Some(10) })), ["TOK0", "TOK1"]);
    assert_eq!(result_symbols(&ask(QualityRange::new(76, 76))), ["TOK3"]);
    assert_eq!(ask(QualityRange::new(77, 100)).total, Some(0));
    assert_eq!(ask(QualityRange::any()).total, Some(4));
    assert!(QualityRange::new(10, 75).contains(75));
    assert!(!QualityRange::new(10, 75).contains(76));
}

#[test]
fn reversed_quality_bounds_find_nothing() {
    let cache = store_with_tokens(&[50, 20]);
    let reversed = QualityRange::new(75, 10);
    let result = cache
        .query_tokens(&TokenQuery { quality_range: reversed, ..base_query() })
        .unwrap();
    assert_eq!(result.total, Some(0));
    assert!(result.entity.is_empty());
    let result = cache
        .query_tokens(&TokenQuery {
            addresses: Some(vec![address(0)]),
            quality_range: reversed,
            last_traded_ts_threshold: Some(ts(0)),
            ..base_query()
        })
        .unwrap();
    assert_eq!(result.total, Some(0));
}

#[test]
fn new_addresses_are_appended_once_in_order_of_first_occurrence() {
    let named = |seed: u8, symbol: &str| {
        let mut token = make_token(seed, 1);
        token.symbol = symbol.to_string();
        token
    };
    let tokens = [
        named(5, "FIVE"),
        named(0, "ZERO"),
        named(3, "THREE"),
        named(5, "FIVE_AGAIN"),
        named(3, "THREE_AGAIN"),
    ];
    let mut added = store_with_tokens(&[100, 100]);
    added.add_tokens(&tokens);
    let result = added.query_tokens(&base_query()).unwrap();
    assert_eq!(result_symbols(&result), ["TOK0", "TOK1", "FIVE", "THREE"]);

    let mut upserted = store_with_tokens(&[100, 100]);
    upserted.upsert_tokens(&tokens);
    let result = upserted.query_tokens(&base_query()).unwrap();
    assert_eq!(result_symbols(&result), ["ZERO", "TOK1", "FIVE_AGAIN", "THREE_AGAIN"]);
}

#[test]
fn qualities_above_the_signed_range_are_filtered_as_negative() {
    let cache = store_with_tokens(&[u32::MAX, 5]);
    let below = cache
        .query_tokens(&TokenQuery { quality_range: QualityRange::new(-1, 0), ..base_query() })
        .unwrap();
    assert_eq!(result_symbols(&below), ["TOK0"]);
    let above = cache
        .query_tokens(&TokenQuery { quality_range: QualityRange::min_only(0), ..base_query() })
        .unwrap();
    assert_eq!(result_symbols(&above), ["TOK1"]);
}

#[test]
fn overwriting_keeps_position_and_last_trade() {
    let mut cache = store_with_tokens(&[100, 100, 100]);
    cache.update_last_traded(&Chain::Ethereum, &[(address(1), ts(2_000))]);
    let mut updated = make_token(1, 7);
    updated.symbol = "NEW".to_string();
    cache.upsert_tokens(&[updated]);

    let all = cache.query_tokens(&base_query()).unwrap();
    assert_eq!(result_symbols(&all), ["TOK0", "NEW", "TOK2"]);
    assert_eq!(all.entity[1].quality, 7);
    let traded = cache
        .query_tokens(&TokenQuery { last_traded_ts_threshold: Some(ts(1_999)), ..base_query() })
        .unwrap();
    assert_eq!(result_symbols(&traded), ["NEW"]);
}

#[test]
fn written_tokens_are_found_again_as_they_were_written() {
    let mut cache = store_with_tokens(&[100]);
    let token = Token::new(
        &address(9),
        "FEE",
        6,
        250,
        &[Some(1), None, Some(3)],
        Chain::Ethereum,
        42,
    );
    cache.upsert_tokens(&[token]);
    let found = cache
        .query_tokens(&TokenQuery { addresses: Some(vec![address(9)]), ..base_query() })
        .unwrap();
    assert_eq!(found.total, Some(1));
    let found = &found.entity[0];
    assert!(found.address.same(&address(9)));
    assert_eq!(found.address.as_bytes(), [9u8; 20]);
    assert_eq!(found.symbol, "FEE");
    assert_eq!(found.decimals, 6);
    assert_eq!(found.tax, 250);
    assert_eq!(found.gas, vec![Some(1), None, Some(3)]);
    assert_eq!(found.chain, Chain::Ethereum);
    assert_eq!(found.quality, 42);
}

#[test]
fn writing_the_same_tokens_again_changes_nothing() {
    let tokens = [make_token(3, 1), make_token(4, 2), make_token(3, 9)];
    let mut cache = store_with_tokens(&[100]);
    cache.upsert_tokens(&tokens);
    let once = format!("{:?}", cache.query_tokens(&base_query()).unwrap());
    cache.upsert_tokens(&tokens);
    let twice = format!("{:?}", cache.query_tokens(&base_query()).unwrap());
    assert_eq!(once, twice);
    cache.add_tokens(&tokens);
    assert_eq!(once, format!("{:?}", cache.query_tokens(&base_query()).unwrap()));
    // The last token written to an address is the one that counts.
    let found = cache
        .query_tokens(&TokenQuery { addresses: Some(vec![address(3)]), ..base_query() })
        .unwrap();
    assert_eq!(found.entity[0].quality, 9);
}

#[test]
fn trades_may_come_in_any_order() {
    let mut cache = store_with_tokens(&[100, 100]);
    cache.update_last_traded(
        &Chain::Ethereum,
        &[(address(0), ts(30)), (address(1), ts(10)), (address(0), ts(20)), (address(1), ts(40))],
    );
    let after = |secs: i64| {
        cache
            .query_tokens(&TokenQuery { last_traded_ts_threshold: Some(ts(secs)), ..base_query() })
            .unwrap()
    };
    assert_eq!(result_symbols(&after(29)), ["TOK0", "TOK1"]);
    assert_eq!(result_symbols(&after(30)), ["TOK1"]);
    assert_eq!(after(40).total, Some(0));
}

#[test]
fn trades_before_the_epoch_count_but_no_trade_does_not() {
    let mut cache = store_with_tokens(&[100, 100]);
    cache.update_last_traded(&Chain::Ethereum, &[(address(0), ts(-5))]);
    let earliest = Timestamp::from_timestamp(-8_334_601_228_800, 0).unwrap();
    let result = cache
        .query_tokens(&TokenQuery { last_traded_ts_threshold: Some(earliest), ..base_query() })
        .unwrap();
    assert_eq!(result_symbols(&result), ["TOK0"]);
}

#[test]
fn trades_of_unknown_tokens_and_chains_change_nothing() {
    let mut cache = store_with_tokens(&[100]);
    cache.update_last_traded(&Chain::Ethereum, &[(address(8), ts(5))]);
    cache.update_last_traded(&Chain::Base, &[(address(0), ts(5))]);
    let result = cache
        .query_tokens(&TokenQuery { last_traded_ts_threshold: Some(ts(0)), ..base_query() })
        .unwrap();
    assert_eq!(result.total, Some(0));
    assert!(!cache.has_chain(&Chain::Base));
}

#[test]
fn each_chain_keeps_its_own_tokens() {
    let mut cache = TokenCache::with_empty_chains(&[Chain::Ethereum, Chain::Base]);
    let on = |chain: Chain, symbol: &str| {
        Token::new(&address(1), symbol, 18, 0, &[], chain, 1)
    };
    cache.add_tokens(&[
        on(Chain::Base, "B"),
        on(Chain::Ethereum, "E"),
        on(Chain::Unichain, "U"),
    ]);
    let ask = |chain: Chain| cache.query_tokens(&TokenQuery { chain, ..base_query() });
    assert_eq!(result_symbols(&ask(Chain::Ethereum).unwrap()), ["E"]);
    assert_eq!(result_symbols(&ask(Chain::Base).unwrap()), ["B"]);
    assert!(ask(Chain::Unichain).is_err());
}

#[test]
fn room_is_counted_per_chain() {
    let cache = store_with_tokens(&[1, 2, 3]);
    assert!(cache.can_hold(0));
    assert!(cache.can_hold(0x1_0000_0000 - 3));
    assert!(!cache.can_hold(0x1_0000_0000 - 2));
    assert!(!cache.can_hold(usize::MAX));
    assert!(TokenCache::new().can_hold(usize::MAX));
}

#[test]
fn many_tokens_of_many_qualities_are_filtered_like_a_scan() {
    let qualities: Vec<u32> = (0..200u32).map(|i| (i * 37) % 101).collect();
    let mut cache = store_with_tokens(&qualities);
    for (min, max) in [(0, 100), (10, 20), (50, 50), (99, 100)] {
        let result = cache
            .query_tokens(&TokenQuery { quality_range: QualityRange::new(min, max), ..base_query() })
            .unwrap();
        let expected: Vec<String> = qualities
            .iter()
            .enumerate()
            .filter(|(_, quality)| (min..=max).contains(&(**quality as i32)))
            .map(|(position, _)| format!("TOK{position}"))
            .collect();
        assert_eq!(result_symbols(&result), expected);
        assert_eq!(result.total, Some(expected.len() as i64));
    }
    // Moving every token to another quality empties the old entries.
    let moved: Vec<Token> = (0..200u8).map(|seed| make_token(seed, 500)).collect();
    cache.upsert_tokens(&moved);
    let old = cache
        .query_tokens(&TokenQuery { quality_range: QualityRange::new(0, 100), ..base_query() })
        .unwrap();
    assert_eq!(old.total, Some(0));
}
