use tycho_token_cache::chain::Chain;
use tycho_token_cache::error::StorageError;
use tycho_token_cache::loader::chain_of_row;
use tycho_token_cache::timestamp::Timestamp;
use tycho_token_cache::token::{to_model_token, Address, TokenRow};

#[test]
fn rows_become_tokens() {
    let row = TokenRow {
        id: 17,
        symbol: "USDC".to_string(),
        decimals: 6,
        tax: 10,
        gas: vec![Some(40_000), None],
        quality: 100,
        modified_ts: Timestamp::epoch(),
    };
    let token = to_model_token(&row, &Address::new(vec![1, 2, 3]), Chain::Base);
    assert_eq!(token.symbol, "USDC");
    assert_eq!(token.decimals, 6);
    assert_eq!(token.tax, 10);
    assert_eq!(token.gas, vec![Some(40_000), None]);
    assert_eq!(token.quality, 100);
    assert_eq!(token.chain, Chain::Base);
    assert_eq!(token.address.as_bytes(), [1, 2, 3]);
}

#[test]
fn negative_columns_are_read_as_unsigned() {
    let row = TokenRow {
        id: 1,
        symbol: "".to_string(),
        decimals: -1,
        tax: -1,
        gas: vec![Some(-2)],
        quality: -3,
        modified_ts: Timestamp::epoch(),
    };
    let token = to_model_token(&row, &Address::new(vec![]), Chain::Bsc);
    assert_eq!(token.decimals, u32::MAX);
    assert_eq!(token.tax, u64::MAX);
    assert_eq!(token.gas, vec![Some(u64::MAX - 1)]);
    assert_eq!(token.quality as i32, -3);
}

#[test]
fn chain_names_read_back() {
    for chain in [
        Chain::Ethereum,
        Chain::Starknet,
        Chain::ZkSync,
        Chain::Arbitrum,
        Chain::Base,
        Chain::Bsc,
        Chain::Unichain,
    ] {
        assert_eq!(Chain::from_name(&chain.name()), Some(chain));
        assert_eq!(chain_of_row(&chain.name()).unwrap(), chain);
    }
    assert_eq!(Chain::ZkSync.name(), "zksync");
    assert_eq!(Chain::from_name("Ethereum"), None);
}

#[test]
fn unknown_chain_rows_are_errors() {
    match chain_of_row("dogecoin") {
        Err(StorageError::Unexpected(message)) => {
            assert_eq!(message, "Unknown chain in chain table: dogecoin")
        }
        other => panic!("unexpected {other:?}"),
    }
}
