use tycho_token_cache::cache::TokenCache;
use tycho_token_cache::chain::Chain;
use tycho_token_cache::error::StorageError;
use tycho_token_cache::query::{QualityRange, TokenQuery};
use tycho_token_cache::refresh_task::{RefreshStep, StepOutcome};
use tycho_token_cache::store::ChainTokenStore;
use tycho_token_cache::timestamp::Timestamp;
use tycho_token_cache::token::{Address, Token, TokenRow};

fn ts(secs: i64) -> Timestamp {
    Timestamp::from_timestamp(secs, 0).unwrap()
}

fn row(seed: u8, quality: i32, modified: i64, chain_id: i64) -> (TokenRow, Address, i64) {
    (
        TokenRow {
            id: seed as i64,
            symbol: format!("TOK{seed}"),
            decimals: 18,
            tax: 0,
            gas: vec![Some(1)],
            quality,
            modified_ts: ts(modified),
        },
        Address::new(vec![seed; 20]),
        chain_id,
    )
}

fn cache() -> TokenCache {
    let mut cache = TokenCache::new();
    cache.add_chain(7, Chain::Ethereum, ChainTokenStore::new(), ts(100));
    cache.add_chain(8, Chain::Base, ChainTokenStore::new(), ts(90));
    cache
}

fn qualities(cache: &TokenCache, chain: Chain) -> Vec<(String, u32)> {
    cache
        .query_tokens(&TokenQuery {
            chain,
            addresses: None,
            quality_range: QualityRange::any(),
            last_traded_ts_threshold: None,
            pagination: None,
        })
        .unwrap()
        .entity
        .into_iter()
        .map(|token| (token.symbol, token.quality))
        .collect()
}

#[test]
fn refresh_upserts_rows_and_advances_the_marker() {
    let mut cache = cache();
    assert_eq!(cache.last_sync(), ts(100));
    let since = cache.last_sync();
    let n = cache
        .refresh(since, Ok(vec![row(1, 10, 110, 7), row(2, 20, 150, 8), row(3, 30, 900, 99)]))
        .unwrap();
    // The row of the unknown chain counts, but is passed over and does not move the marker.
    assert_eq!(n, 3);
    assert_eq!(cache.last_sync(), ts(150));
    assert_eq!(qualities(&cache, Chain::Ethereum), [("TOK1".to_string(), 10)]);
    assert_eq!(qualities(&cache, Chain::Base), [("TOK2".to_string(), 20)]);

    let since = cache.last_sync();
    assert_eq!(cache.refresh(since, Ok(vec![row(1, 77, 160, 7)])).unwrap(), 1);
    assert_eq!(qualities(&cache, Chain::Ethereum), [("TOK1".to_string(), 77)]);
    assert_eq!(cache.last_sync(), ts(160));
}

#[test]
fn refreshed_rows_stand_in_the_order_of_their_ids() {
    let mut cache = cache();
    cache.refresh(ts(100), Ok(vec![row(1, 10, 110, 7), row(3, 30, 110, 7)])).unwrap();
    cache.refresh(ts(110), Ok(vec![row(2, 20, 120, 7)])).unwrap();
    assert_eq!(qualities(&cache, Chain::Ethereum), [
        ("TOK1".to_string(), 10),
        ("TOK2".to_string(), 20),
        ("TOK3".to_string(), 30)
    ]);
}

fn written_through(seed: u8) -> Token {
    Token::new(
        &Address::new(vec![seed; 20]),
        &format!("TOK{seed}"),
        18,
        0,
        &[Some(1)],
        Chain::Ethereum,
        0,
    )
}

fn names(cache: &TokenCache) -> Vec<String> {
    qualities(cache, Chain::Ethereum).into_iter().map(|(name, _)| name).collect()
}

#[test]
fn rows_with_larger_ids_are_appended_behind_own_tokens() {
    let mut cache = cache();
    cache.refresh(ts(100), Ok(vec![row(1, 10, 110, 7)])).unwrap();
    cache.add_tokens(&[written_through(2)]);
    cache.update_last_traded(&Chain::Ethereum, &[(Address::new(vec![2; 20]), ts(500))]);
    // The row of the own token is not among the modified ones.
    cache.refresh(ts(110), Ok(vec![row(3, 30, 120, 7)])).unwrap();
    assert_eq!(names(&cache), ["TOK1", "TOK2", "TOK3"]);
    cache.refresh(ts(120), Ok(vec![row(4, 40, 130, 7), row(5, 50, 130, 7)])).unwrap();
    assert_eq!(names(&cache), ["TOK1", "TOK2", "TOK3", "TOK4", "TOK5"]);
    // Its row comes at last, and leaves it where it is.
    cache.refresh(ts(130), Ok(vec![row(2, 20, 140, 7)])).unwrap();
    assert_eq!(names(&cache), ["TOK1", "TOK2", "TOK3", "TOK4", "TOK5"]);
    assert_eq!(qualities(&cache, Chain::Ethereum)[1].1, 20);
}

#[test]
fn own_tokens_stay_where_their_ids_allow() {
    let mut cache = cache();
    cache.refresh(ts(100), Ok(vec![row(1, 10, 110, 7)])).unwrap();
    cache.add_tokens(&[written_through(5), written_through(7)]);
    cache.refresh(ts(110), Ok(vec![row(7, 70, 120, 7)])).unwrap();
    assert_eq!(names(&cache), ["TOK1", "TOK5", "TOK7"]);
    // A row between known ids goes before the first larger one.
    cache.refresh(ts(120), Ok(vec![row(6, 60, 130, 7)])).unwrap();
    assert_eq!(names(&cache), ["TOK1", "TOK5", "TOK6", "TOK7"]);
    // A token whose id does not fit its place moves.
    cache.add_tokens(&[written_through(3)]);
    assert_eq!(names(&cache), ["TOK1", "TOK5", "TOK6", "TOK7", "TOK3"]);
    cache.refresh(ts(130), Ok(vec![row(5, 50, 140, 7), row(3, 30, 140, 7)])).unwrap();
    assert_eq!(names(&cache), ["TOK1", "TOK3", "TOK5", "TOK6", "TOK7"]);
}

#[test]
fn own_tokens_and_rows_of_other_processes_end_up_in_id_order() {
    let mut cache = cache();
    cache.refresh(ts(100), Ok(vec![row(1, 10, 110, 7)])).unwrap();
    // Written through before their ids are known.
    cache.add_tokens(&[written_through(6), written_through(4)]);
    assert_eq!(names(&cache), ["TOK1", "TOK6", "TOK4"]);
    cache.update_last_traded(
        &Chain::Ethereum,
        &[(Address::new(vec![6; 20]), ts(500)), (Address::new(vec![4; 20]), ts(400))],
    );
    // Another process wrote 3 and 5; the rows bring the ids of 4 and 6 too.
    cache
        .refresh(
            ts(110),
            Ok(vec![row(3, 30, 120, 7), row(4, 40, 120, 7), row(5, 50, 120, 7), row(6, 60, 120, 7)]),
        )
        .unwrap();
    assert_eq!(names(&cache), ["TOK1", "TOK3", "TOK4", "TOK5", "TOK6"]);
    cache.refresh(ts(120), Ok(vec![row(2, 20, 130, 7)])).unwrap();
    assert_eq!(names(&cache), ["TOK1", "TOK2", "TOK3", "TOK4", "TOK5", "TOK6"]);

    // Indexes and last trades moved along.
    let ask = |addresses: Option<Vec<u8>>, range: QualityRange, after: Option<Timestamp>| {
        cache
            .query_tokens(&TokenQuery {
                chain: Chain::Ethereum,
                addresses: addresses
                    .map(|seeds| seeds.into_iter().map(|s| Address::new(vec![s; 20])).collect()),
                quality_range: range,
                last_traded_ts_threshold: after,
                pagination: None,
            })
            .unwrap()
            .entity
            .into_iter()
            .map(|token| token.symbol)
            .collect::<Vec<String>>()
    };
    assert_eq!(ask(Some(vec![6, 2, 5]), QualityRange::any(), None), ["TOK2", "TOK5", "TOK6"]);
    assert_eq!(ask(None, QualityRange::new(30, 50), None), ["TOK3", "TOK4", "TOK5"]);
    assert_eq!(ask(None, QualityRange::any(), Some(ts(399))), ["TOK4", "TOK6"]);
    assert_eq!(ask(None, QualityRange::any(), Some(ts(400))), ["TOK6"]);
}

#[test]
fn random_rows_stand_in_the_order_of_their_ids() {
    let mut cache = cache();
    let mut seed: u32 = 1;
    for _ in 0..300 {
        seed = seed.wrapping_mul(1_103_515_245).wrapping_add(12_345);
        let id = ((seed >> 16) % 200) as u8;
        let quality = ((seed >> 8) % 50) as i32;
        cache.refresh(ts(100), Ok(vec![row(id, quality, 110, 7)])).unwrap();
        let ids: Vec<u32> = qualities(&cache, Chain::Ethereum)
            .into_iter()
            .map(|(name, _)| name[3..].parse().unwrap())
            .collect();
        assert!(ids.windows(2).all(|pair| pair[0] < pair[1]));
    }
    for quality in 0..50i32 {
        let found = cache
            .query_tokens(&TokenQuery {
                chain: Chain::Ethereum,
                addresses: None,
                quality_range: QualityRange::new(quality, quality),
                last_traded_ts_threshold: None,
                pagination: None,
            })
            .unwrap();
        let expected = qualities(&cache, Chain::Ethereum)
            .into_iter()
            .filter(|(_, q)| *q == quality as u32)
            .count();
        assert_eq!(found.total, Some(expected as i64));
        assert!(found.entity.iter().all(|token| token.quality == quality as u32));
    }
}

#[test]
fn an_id_belongs_to_one_token() {
    let mut store = ChainTokenStore::new();
    let token = |seed: u8| {
        Token::new(&Address::new(vec![seed]), &format!("T{seed}"), 0, 0, &[], Chain::Base, 0)
    };
    let names = |store: &ChainTokenStore| -> Vec<String> {
        store
            .query(&TokenQuery {
                chain: Chain::Base,
                addresses: None,
                quality_range: QualityRange::any(),
                last_traded_ts_threshold: None,
                pagination: None,
            })
            .entity
            .into_iter()
            .map(|token| token.symbol)
            .collect()
    };
    store.upsert_row(5, token(1));
    store.upsert_row(7, token(2));
    store.upsert_row(5, token(3));
    assert_eq!(names(&store), ["T1", "T3", "T2"]);
    // A token whose id changes moves.
    store.upsert_row(9, token(3));
    assert_eq!(names(&store), ["T1", "T2", "T3"]);
    assert_eq!(store.len(), 3);
}

#[test]
fn unchanged_table_gives_nothing_more() {
    let table = || vec![row(1, 10, 110, 7), row(2, 20, 150, 8), row(3, 30, 90, 7)];
    let newer = |since: Timestamp| -> Vec<(TokenRow, Address, i64)> {
        table()
            .into_iter()
            .filter(|row| {
                let modified = row.0.modified_ts;
                modified != since && modified.max(since) == modified
            })
            .collect()
    };
    let mut cache = cache();
    let since = cache.last_sync();
    assert_eq!(cache.refresh(since, Ok(newer(since))).unwrap(), 2);
    let before = qualities(&cache, Chain::Ethereum);
    let since = cache.last_sync();
    assert_eq!(since, ts(150));
    assert_eq!(cache.refresh(since, Ok(newer(since))).unwrap(), 0);
    assert_eq!(cache.last_sync(), since);
    assert_eq!(qualities(&cache, Chain::Ethereum), before);
}

#[test]
fn refreshing_again_changes_nothing() {
    let rows = || vec![row(1, 10, 110, 7), row(2, 20, 150, 7), row(1, 30, 120, 7)];
    let mut cache = cache();
    cache.refresh(ts(100), Ok(rows())).unwrap();
    let once = qualities(&cache, Chain::Ethereum);
    assert_eq!(once, [("TOK1".to_string(), 30), ("TOK2".to_string(), 20)]);
    let marker = cache.last_sync();
    cache.refresh(marker, Ok(rows())).unwrap();
    assert_eq!(qualities(&cache, Chain::Ethereum), once);
    assert_eq!(cache.last_sync(), marker);
}

#[test]
fn failed_refresh_leaves_cache_and_marker_alone() {
    let mut cache = cache();
    cache.refresh(ts(100), Ok(vec![row(1, 10, 110, 7)])).unwrap();
    match cache.refresh(ts(110), Err(StorageError::Unexpected("gone".to_string()))) {
        Err(StorageError::Unexpected(message)) => assert_eq!(message, "gone"),
        other => panic!("unexpected {other:?}"),
    }
    assert_eq!(cache.last_sync(), ts(110));
    assert_eq!(qualities(&cache, Chain::Ethereum), [("TOK1".to_string(), 10)]);
}

#[test]
fn empty_refresh_keeps_the_marker() {
    let mut cache = cache();
    assert_eq!(cache.refresh(ts(100), Ok(vec![])).unwrap(), 0);
    assert_eq!(cache.last_sync(), ts(100));
}

#[test]
fn loading_a_chain_keeps_the_others() {
    let mut cache = cache();
    cache.refresh(ts(100), Ok(vec![row(1, 10, 110, 7)])).unwrap();
    cache.add_chain(9, Chain::Bsc, ChainTokenStore::new(), ts(50));
    assert_eq!(cache.last_sync(), ts(110));
    assert_eq!(qualities(&cache, Chain::Ethereum), [("TOK1".to_string(), 10)]);
    assert!(qualities(&cache, Chain::Bsc).is_empty());
}

#[test]
fn first_tick_is_skipped_and_failures_are_retried() {
    let mut step = RefreshStep::first();
    assert_eq!(step, RefreshStep::SkipTick);
    step = step.next(StepOutcome::Done);
    assert_eq!(step, RefreshStep::AwaitTick);
    step = step.next(StepOutcome::Done);
    assert_eq!(step, RefreshStep::Connect);
    assert_eq!(step.failure_message(), Some("Token cache refresh could not get a connection"));
    step = step.next(StepOutcome::Failed);
    assert_eq!(step, RefreshStep::AwaitTick);
    step = step.next(StepOutcome::Done).next(StepOutcome::Done);
    assert_eq!(step, RefreshStep::Refresh);
    assert_eq!(step.failure_message(), Some("Token cache refresh failed"));
    assert_eq!(step.next(StepOutcome::Failed), RefreshStep::AwaitTick);
    assert_eq!(step.next(StepOutcome::Done), RefreshStep::AwaitTick);
    assert_eq!(RefreshStep::AwaitTick.failure_message(), None);
}
