//! Tokens, their addresses, and the database rows that they are made from.

use crate::chain::Chain;
use crate::timestamp::Timestamp;
use std::collections::hash_map::DefaultHasher;
use std::hash::Hasher;
use vstd::prelude::*;
use vstd::std_specs::hash::DefaultHasherAdditionalSpecFns;

verus! {

/// The address of an account on a chain.
#[derive(Debug)]
pub struct Address {
    bytes: Vec<u8>,
}

impl View for Address {
    type V = Seq<u8>;

    closed spec fn view(&self) -> Seq<u8> {
        self.bytes@
    }
}

/// The digest under which an address is found again.
pub(crate) open spec fn digest_of(address: Seq<u8>) -> u64 {
    DefaultHasher::spec_finish(seq![address])
}

impl Clone for Address {
    fn clone(&self) -> (address: Self)
        ensures
            address@ == self@,
    {
        let bytes = self.bytes.clone();
        assert(bytes@ =~= self.bytes@);
        Address { bytes }
    }
}

impl Address {
    /// The address made of the given bytes.
    pub fn new(bytes: Vec<u8>) -> (address: Address)
        ensures
            address@ == bytes@,
    {
        Address { bytes }
    }

    /// The bytes of the address.
    pub fn as_bytes(&self) -> (bytes: &[u8])
        ensures
            bytes@ == self@,
    {
        self.bytes.as_slice()
    }

    /// Whether two addresses are the same.
    pub fn same(&self, other: &Address) -> (same: bool)
        ensures
            same == (self@ == other@),
    {
        if self.bytes.len() != other.bytes.len() {
            return false;
        }
        let mut i: usize = 0;
        while i < self.bytes.len()
            invariant
                i <= self.bytes@.len(),
                self.bytes@.len() == other.bytes@.len(),
                forall|j: int| 0 <= j < i ==> self.bytes@[j] == other.bytes@[j],
            decreases self.bytes@.len() - i,
        {
            if self.bytes[i] != other.bytes[i] {
                return false;
            }
            i += 1;
        }
        assert(self.bytes@ =~= other.bytes@);
        true
    }

    /// The digest under which the address is found again.
    pub(crate) fn digest(&self) -> (digest: u64)
        ensures
            digest == digest_of(self@),
    {
        let mut hasher = DefaultHasher::new();
        hasher.write(self.bytes.as_slice());
        assert(hasher@ =~= seq![self@]);
        hasher.finish()
    }
}

/// What a token is, apart from how it is laid out in memory.
#[verifier::ext_equal]
pub struct TokenView {
    pub address: Seq<u8>,
    pub symbol: Seq<char>,
    pub decimals: u32,
    pub tax: u64,
    pub gas: Seq<Option<u64>>,
    pub chain: Chain,
    pub quality: u32,
}

/// A token.
#[derive(Debug)]
pub struct Token {
    pub address: Address,
    pub symbol: String,
    pub decimals: u32,
    pub tax: u64,
    pub gas: Vec<Option<u64>>,
    pub chain: Chain,
    pub quality: u32,
}

impl View for Token {
    type V = TokenView;

    open spec fn view(&self) -> TokenView {
        TokenView {
            address: self.address@,
            symbol: self.symbol@,
            decimals: self.decimals,
            tax: self.tax,
            gas: self.gas@,
            chain: self.chain,
            quality: self.quality,
        }
    }
}

impl Clone for Token {
    fn clone(&self) -> (token: Self)
        ensures
            token@ == self@,
            token.address@ == self.address@,
            token.symbol@ == self.symbol@,
            token.decimals == self.decimals,
            token.tax == self.tax,
            token.gas@ == self.gas@,
            token.chain == self.chain,
            token.quality == self.quality,
    {
        let gas = self.gas.clone();
        assert(gas@ =~= self.gas@);
        Token {
            address: self.address.clone(),
            symbol: self.symbol.clone(),
            decimals: self.decimals,
            tax: self.tax,
            gas,
            chain: self.chain,
            quality: self.quality,
        }
    }
}

impl Token {
    /// The token made of the given parts.
    pub fn new(
        address: &Address,
        symbol: &str,
        decimals: u32,
        tax: u64,
        gas: &[Option<u64>],
        chain: Chain,
        quality: u32,
    ) -> (token: Token)
        ensures
            token@ == (TokenView {
                address: address@,
                symbol: symbol@,
                decimals,
                tax,
                gas: gas@,
                chain,
                quality,
            }),
            token.address@ == address@,
            token.symbol@ == symbol@,
            token.decimals == decimals,
            token.tax == tax,
            token.gas@ == gas@,
            token.chain == chain,
            token.quality == quality,
    {
        let mut costs: Vec<Option<u64>> = Vec::new();
        costs.extend_from_slice(gas);
        assert(costs@ =~= gas@);
        Token {
            address: address.clone(),
            symbol: symbol.to_owned(),
            decimals,
            tax,
            gas: costs,
            chain,
            quality,
        }
    }
}

/// The 32 bits of a signed integer, read as an unsigned one.
pub open spec fn unsigned_32(value: i32) -> int {
    if value >= 0 {
        value as int
    } else {
        value + 0x1_0000_0000
    }
}

/// The 64 bits of a signed integer, read as an unsigned one.
pub open spec fn unsigned_64(value: i64) -> int {
    if value >= 0 {
        value as int
    } else {
        value + 0x1_0000_0000_0000_0000
    }
}

/// The 32 bits of an unsigned integer, read as a signed one.
pub open spec fn signed_32(value: u32) -> int {
    if value < 0x8000_0000 {
        value as int
    } else {
        value - 0x1_0000_0000
    }
}

fn to_unsigned_32(value: i32) -> (bits: u32)
    ensures
        bits == unsigned_32(value),
{
    assert(value >= 0 ==> value as u32 == value) by (bit_vector);
    assert(value < 0 ==> value as u32 == value + 0x1_0000_0000) by (bit_vector);
    #[verifier::truncate]
    (value as u32)
}

fn to_unsigned_64(value: i64) -> (bits: u64)
    ensures
        bits == unsigned_64(value),
{
    assert(value >= 0 ==> value as u64 == value) by (bit_vector);
    assert(value < 0 ==> value as u64 == value + 0x1_0000_0000_0000_0000) by (bit_vector);
    #[verifier::truncate]
    (value as u64)
}

/// The signed quality that stands for a token's quality in filters and indexes.
pub(crate) fn to_signed_32(value: u32) -> (bits: i32)
    ensures
        bits == signed_32(value),
{
    assert(value < 0x8000_0000 ==> value as i32 == value) by (bit_vector);
    assert(value >= 0x8000_0000 ==> value as i32 == value - 0x1_0000_0000) by (bit_vector);
    #[verifier::truncate]
    (value as i32)
}

/// A row of the token table.
#[derive(Debug)]
pub struct TokenRow {
    pub id: i64,
    pub symbol: String,
    pub decimals: i32,
    pub tax: i64,
    pub gas: Vec<Option<i64>>,
    pub quality: i32,
    pub modified_ts: Timestamp,
}

/// What one entry of a row's gas list stands for.
pub open spec fn gas_cost(cost: Option<i64>) -> Option<u64> {
    match cost {
        Some(value) => Some(unsigned_64(value) as u64),
        None => None,
    }
}

impl TokenRow {
    /// The token that the row describes, for the account at `address` on `chain`.
    pub open spec fn model(self, address: Seq<u8>, chain: Chain) -> TokenView {
        TokenView {
            address,
            symbol: self.symbol@,
            decimals: unsigned_32(self.decimals) as u32,
            tax: unsigned_64(self.tax) as u64,
            gas: Seq::new(self.gas@.len(), |i: int| gas_cost(self.gas@[i])),
            chain,
            quality: unsigned_32(self.quality) as u32,
        }
    }
}

/// The token that a row describes, for the account at `address` on `chain`.
pub fn to_model_token(row: &TokenRow, address: &Address, chain: Chain) -> (token: Token)
    ensures
        token@ == row.model(address@, chain),
{
    let mut gas_usage: Vec<Option<u64>> = Vec::new();
    let mut i: usize = 0;
    while i < row.gas.len()
        invariant
            i <= row.gas@.len(),
            gas_usage@.len() == i,
            forall|j: int| 0 <= j < i ==> gas_usage@[j] == gas_cost(row.gas@[j]),
        decreases row.gas@.len() - i,
    {
        let cost: Option<u64> = match row.gas[i] {
            Some(value) => Some(to_unsigned_64(value)),
            None => None,
        };
        gas_usage.push(cost);
        i += 1;
    }
    let token = Token::new(
        address,
        row.symbol.as_str(),
        to_unsigned_32(row.decimals),
        to_unsigned_64(row.tax),
        gas_usage.as_slice(),
        chain,
        to_unsigned_32(row.quality),
    );
    assert(token@.gas =~= row.model(address@, chain).gas);
    token
}

/// A token is looked at as what its fields hold.
pub proof fn law_token_is_its_fields(token: Token)
    ensures
        token@.address == token.address@,
        token@.symbol == token.symbol@,
        token@.decimals == token.decimals,
        token@.tax == token.tax,
        token@.gas == token.gas@,
        token@.chain == token.chain,
        token@.quality == token.quality,
{
}

/// The token of a row has the values of the row: those that are not negative as they are, the
/// others so that they read back as the same signed value. The gas list keeps its length, its
/// order and its gaps.
pub proof fn law_row_values_are_kept(row: TokenRow, address: Seq<u8>, chain: Chain)
    ensures
        ({
            let token = row.model(address, chain);
            &&& token.address == address
            &&& token.chain == chain
            &&& token.symbol == row.symbol@
            &&& row.decimals >= 0 ==> token.decimals == row.decimals
            &&& row.decimals < 0 ==> token.decimals - 0x1_0000_0000 == row.decimals
            &&& row.tax >= 0 ==> token.tax == row.tax
            &&& row.tax < 0 ==> token.tax - 0x1_0000_0000_0000_0000 == row.tax
            &&& row.quality >= 0 ==> token.quality == row.quality
            &&& row.quality < 0 ==> token.quality - 0x1_0000_0000 == row.quality
            &&& token.gas.len() == row.gas@.len()
            &&& forall|i: int|
                #![trigger token.gas[i]]
                #![trigger row.gas@[i]]
                0 <= i < row.gas@.len() ==> {
                    &&& row.gas@[i] is None <==> token.gas[i] is None
                    &&& row.gas@[i] is Some && row.gas@[i]->0 >= 0 ==> token.gas[i]->0
                        == row.gas@[i]->0
                    &&& row.gas@[i] is Some && row.gas@[i]->0 < 0 ==> token.gas[i]->0
                        - 0x1_0000_0000_0000_0000 == row.gas@[i]->0
                }
        }),
{
}

/// Rows with different values give different tokens.
pub proof fn law_different_rows_give_different_tokens(
    left: TokenRow,
    right: TokenRow,
    address: Seq<u8>,
    chain: Chain,
)
    requires
        left.model(address, chain) == right.model(address, chain),
    ensures
        left.symbol@ == right.symbol@,
        left.decimals == right.decimals,
        left.tax == right.tax,
        left.gas@ == right.gas@,
        left.quality == right.quality,
{
    law_row_values_are_kept(left, address, chain);
    law_row_values_are_kept(right, address, chain);
    let token = left.model(address, chain);
    assert forall|i: int| 0 <= i < left.gas@.len() implies left.gas@[i] == right.gas@[i] by {
        assert(token.gas[i] is None <==> left.gas@[i] is None);
    }
    assert(left.gas@ =~= right.gas@);
}

/// The quality by which a token is filtered is the one that its row holds, negative ones
/// included.
pub proof fn law_row_quality_is_the_filtered_quality(row: TokenRow, address: Seq<u8>, chain: Chain)
    ensures
        signed_32(row.model(address, chain).quality) == row.quality,
{
}

} // verus!
