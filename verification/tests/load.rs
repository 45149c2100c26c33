use tycho_token_cache::cache::TokenCache;
use tycho_token_cache::chain::Chain;
use tycho_token_cache::error::StorageError;
use tycho_token_cache::load::{CacheLoad, LoadStep};
use tycho_token_cache::loader::{ChainLoader, LOAD_BATCH_SIZE};
use tycho_token_cache::query::{QualityRange, TokenQuery};
use tycho_token_cache::timestamp::Timestamp;
use tycho_token_cache::token::{Address, TokenRow};

fn ts(secs: i64) -> Timestamp {
    Timestamp::from_timestamp(secs, 0).unwrap()
}

fn row(id: i64, seed: u8, quality: i32, modified: i64) -> (TokenRow, Address) {
    (
        TokenRow {
            id,
            symbol: format!("TOK{seed}"),
            decimals: 18,
            tax: 0,
            gas: vec![],
            quality,
            modified_ts: ts(modified),
        },
        Address::new(vec![seed; 20]),
    )
}

fn query(chain: Chain, threshold: Option<Timestamp>) -> TokenQuery {
    TokenQuery {
        chain,
        addresses: None,
        quality_range: QualityRange::any(),
        last_traded_ts_threshold: threshold,
        pagination: None,
    }
}

fn symbols(cache: &TokenCache, chain: Chain, threshold: Option<Timestamp>) -> Vec<String> {
    cache
        .query_tokens(&query(chain, threshold))
        .unwrap()
        .entity
        .into_iter()
        .map(|token| token.symbol)
        .collect()
}

#[test]
fn cache_is_loaded_chain_by_chain() {
    let mut load =
        CacheLoad::new(vec![(7, "ethereum".to_string()), (9, "base".to_string())]);

    assert_eq!(load.step().unwrap(), LoadStep::Tokens { chain_id: 7, after: i64::MIN });
    assert!(load.has_room(2));
    assert!(!load.has_room(0x1_0000_0001));
    load.take_tokens(&[row(11, 1, 50, 100), row(12, 2, 60, 300)]);
    assert_eq!(load.step().unwrap(), LoadStep::Trades { chain_id: 7 });
    assert_eq!(load.progress(), Some((Chain::Ethereum, 2)));
    load.take_trades(&[(12, ts(40)), (99, ts(41))]);
    assert_eq!(load.progress(), None);

    assert_eq!(load.step().unwrap(), LoadStep::Tokens { chain_id: 9, after: i64::MIN });
    load.take_tokens(&[]);
    assert_eq!(load.step().unwrap(), LoadStep::Trades { chain_id: 9 });
    load.take_trades(&[]);
    assert_eq!(load.step().unwrap(), LoadStep::Finished);

    let cache = load.into_cache();
    assert!(cache.has_chain(&Chain::Ethereum));
    assert!(cache.has_chain(&Chain::Base));
    assert_eq!(cache.last_sync(), ts(300));
    assert_eq!(symbols(&cache, Chain::Ethereum, None), ["TOK1", "TOK2"]);
    assert_eq!(symbols(&cache, Chain::Ethereum, Some(ts(39))), ["TOK2"]);
    assert!(symbols(&cache, Chain::Base, None).is_empty());
}

#[test]
fn unknown_chain_ends_the_load() {
    let mut load = CacheLoad::new(vec![(1, "solana".to_string()), (2, "base".to_string())]);
    // Asking again does not get past it.
    for _ in 0..2 {
        match load.step() {
            Err(StorageError::Unexpected(message)) => {
                assert_eq!(message, "Unknown chain in chain table: solana")
            }
            other => panic!("unexpected {other:?}"),
        }
    }
}

#[test]
fn unknown_chain_behind_a_known_one_ends_the_load_too() {
    let mut load = CacheLoad::new(vec![(2, "base".to_string()), (1, "solana".to_string())]);
    // Asking twice gives the same answer.
    for _ in 0..2 {
        assert_eq!(load.step().unwrap(), LoadStep::Tokens { chain_id: 2, after: i64::MIN });
    }
    load.take_tokens(&[row(1, 1, 0, 0)]);
    load.take_trades(&[]);
    assert!(load.step().is_err());
    assert!(load.step().is_err());
}

#[test]
fn empty_chain_table_gives_an_empty_cache() {
    let mut load = CacheLoad::new(vec![]);
    assert_eq!(load.step().unwrap(), LoadStep::Finished);
    let cache = load.into_cache();
    assert_eq!(cache.last_sync(), Timestamp::epoch());
    assert!(!cache.has_chain(&Chain::Ethereum));
}

#[test]
fn full_batches_ask_for_more_and_batches_do_not_matter() {
    let rows: Vec<(TokenRow, Address)> = (0..LOAD_BATCH_SIZE)
        .map(|i| row(i * 2, 0, 1, 1))
        .collect();
    let mut load = CacheLoad::new(vec![(1, "bsc".to_string())]);
    load.step().unwrap();
    load.take_tokens(&rows);
    let last = (LOAD_BATCH_SIZE - 1) * 2;
    assert_eq!(load.step().unwrap(), LoadStep::Tokens { chain_id: 1, after: last });
    load.take_tokens(&[row(last + 5, 3, 1, 7)]);
    assert_eq!(load.step().unwrap(), LoadStep::Trades { chain_id: 1 });
    load.take_trades(&[(last + 5, ts(9))]);
    assert_eq!(load.step().unwrap(), LoadStep::Finished);
    let cache = load.into_cache();
    // All rows of the first batch share an address.
    assert_eq!(symbols(&cache, Chain::Bsc, None), ["TOK0", "TOK3"]);
    assert_eq!(cache.last_sync(), ts(7));
}

#[test]
fn loader_hands_out_store_and_marker() {
    let mut whole = ChainLoader::new(Chain::Ethereum);
    let mut parts = ChainLoader::new(Chain::Ethereum);
    assert_eq!(whole.last_db_id(), i64::MIN);
    assert!(!whole.load_batch(&[row(3, 1, 0, 5), row(4, 2, 0, 9), row(8, 3, 0, 2)]));
    assert!(!parts.load_batch(&[row(3, 1, 0, 5)]));
    assert_eq!(parts.last_db_id(), 3);
    assert!(!parts.load_batch(&[row(4, 2, 0, 9), row(8, 3, 0, 2)]));
    assert_eq!(whole.last_db_id(), 8);
    assert_eq!(parts.last_db_id(), 8);
    assert_eq!(whole.len(), 3);
    let trades = [(4, ts(50))];
    let (left, left_ts) = whole.finish(&trades);
    let (right, right_ts) = parts.finish(&trades);
    assert_eq!(left_ts, ts(9));
    assert_eq!(right_ts, ts(9));
    for store in [left, right] {
        assert_eq!(store.len(), 3);
        let traded = store.query(&query(Chain::Ethereum, Some(ts(0))));
        assert_eq!(traded.total, Some(1));
        assert_eq!(traded.entity[0].symbol, "TOK2");
    }
}

#[test]
fn trades_find_tokens_by_any_id_they_had() {
    // Both rows are for one token.
    let mut loader = ChainLoader::new(Chain::Ethereum);
    loader.load_batch(&[row(1, 1, 0, 0), row(2, 1, 0, 0), row(3, 2, 0, 0)]);
    assert_eq!(loader.len(), 2);
    let (store, _) = loader.finish(&[(2, ts(5)), (7, ts(6))]);
    let traded = store.query(&query(Chain::Ethereum, Some(ts(4))));
    assert_eq!(traded.total, Some(1));
    assert_eq!(traded.entity[0].symbol, "TOK1");
}

#[test]
fn rows_load_in_the_order_of_their_ids() {
    let mut loader = ChainLoader::new(Chain::Ethereum);
    loader.load_batch(&[row(30, 3, 0, 0), row(10, 1, 0, 0), row(20, 2, 0, 0)]);
    let (store, _) = loader.finish(&[(10, ts(5)), (30, ts(9))]);
    let all = store.query(&query(Chain::Ethereum, None));
    let names: Vec<&str> = all.entity.iter().map(|token| token.symbol.as_str()).collect();
    assert_eq!(names, ["TOK1", "TOK2", "TOK3"]);
    let traded = store.query(&query(Chain::Ethereum, Some(ts(5))));
    assert_eq!(traded.entity.len(), 1);
    assert_eq!(traded.entity[0].symbol, "TOK3");
}
