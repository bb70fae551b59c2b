//! Per-chain layer-1 configuration values: one configuration per chain,
//! holding the chain identifier, the deployed contract's address and the
//! client connection parameters, plus the aggregate over all configured
//! chains.
//!
//! Reading the raw values out of the process environment is the embedding
//! program's concern; this module builds and queries the configurations
//! from those plain values.

use vstd::prelude::*;
use vstd::slice::slice_to_vec;
use std::collections::HashMap;

verus! {

broadcast use vstd::std_specs::hash::group_hash_axioms;

/// Chain parameters of one configured chain.
#[derive(Clone, Debug)]
pub struct ChainConfig {
    pub chain_id: u8,
}

/// Contract parameters of one configured chain: the deployed contract's
/// address bytes.
#[derive(Clone, Debug)]
pub struct ContractConfig {
    pub chain_id: u8,
    pub address: Vec<u8>,
}

/// Client connection parameters of one configured chain.
#[derive(Clone, Debug)]
pub struct ClientConfig {
    pub chain_id: u8,
    pub web3_url: String,
}

/// The aggregated layer-1 configuration of one chain.
#[derive(Clone, Debug)]
pub struct Layer1Config {
    pub chain: ChainConfig,
    pub contract: ContractConfig,
    pub client: ClientConfig,
}

impl Layer1Config {
    /// All three parts describe the same chain.
    pub open spec fn wf(&self) -> bool {
        &&& self.chain.chain_id == self.contract.chain_id
        &&& self.chain.chain_id == self.client.chain_id
    }

    /// Builds the configuration of one chain from the values read out of
    /// the process environment for that chain identifier.
    pub fn from_env(chain_id: u8, contract_address: Vec<u8>, web3_url: String) -> (r: Self)
        ensures
            r.wf(),
            r.chain.chain_id == chain_id,
            r.contract.address@ == contract_address@,
            r.client.web3_url@ == web3_url@,
    {
        Layer1Config {
            chain: ChainConfig { chain_id },
            contract: ContractConfig { chain_id, address: contract_address },
            client: ClientConfig { chain_id, web3_url },
        }
    }
}

/// Whether position `i` holds the last occurrence of its chain identifier
/// in `ids`.
pub open spec fn is_last_occurrence(ids: Seq<u8>, i: int) -> bool {
    forall|j: int| i < j < ids.len() ==> ids[j] != ids[i]
}

/// The aggregate over all configured chains: the ordered list of chain
/// identifiers and the index-matched list of per-chain configurations.
#[derive(Clone, Debug)]
pub struct MultiChainConfigs {
    pub chain_ids: Vec<u8>,
    pub chain_configs: Vec<Layer1Config>,
}

impl MultiChainConfigs {
    /// The two lists have equal length and matching index-to-chain
    /// correspondence.
    pub open spec fn wf(&self) -> bool {
        &&& self.chain_ids@.len() == self.chain_configs@.len()
        &&& forall|i: int|
            0 <= i < self.chain_ids@.len() ==> (#[trigger] self.chain_configs@[i]).wf()
                && self.chain_configs@[i].chain.chain_id == self.chain_ids@[i]
    }

    /// Builds the configuration of every chain from the values read out of
    /// the process environment: the chain identifiers in order, with the
    /// index-matched contract addresses and endpoint URLs.
    pub fn from_env(
        chain_ids: Vec<u8>,
        contract_addresses: &Vec<Vec<u8>>,
        web3_urls: &Vec<String>,
    ) -> (r: Self)
        requires
            contract_addresses@.len() == chain_ids@.len(),
            web3_urls@.len() == chain_ids@.len(),
        ensures
            r.wf(),
            r.chain_ids@ == chain_ids@,
            forall|i: int|
                0 <= i < chain_ids@.len() ==> (#[trigger] r.chain_configs@[i]).contract.address@
                    == contract_addresses@[i]@ && r.chain_configs@[i].client.web3_url@
                    == web3_urls@[i]@,
    {
        let mut chain_configs: Vec<Layer1Config> = Vec::new();
        let mut i: usize = 0;
        while i < chain_ids.len()
            invariant
                contract_addresses@.len() == chain_ids@.len(),
                web3_urls@.len() == chain_ids@.len(),
                i <= chain_ids@.len(),
                chain_configs@.len() == i,
                forall|j: int|
                    0 <= j < i ==> (#[trigger] chain_configs@[j]).wf()
                        && chain_configs@[j].chain.chain_id == chain_ids@[j]
                        && chain_configs@[j].contract.address@ == contract_addresses@[j]@
                        && chain_configs@[j].client.web3_url@ == web3_urls@[j]@,
            decreases chain_ids@.len() - i,
        {
            let address = slice_to_vec(contract_addresses[i].as_slice());
            let url = web3_urls[i].clone();
            chain_configs.push(Layer1Config::from_env(chain_ids[i], address, url));
            i = i + 1;
        }
        MultiChainConfigs { chain_ids, chain_configs }
    }

    /// The deployed contract address of each configured chain, keyed by
    /// chain identifier; with repeated identifiers the last configuration
    /// wins, as when collecting an iterator of pairs into a map.
    pub fn get_contracts(&self) -> (r: HashMap<u8, Vec<u8>>)
        requires
            self.wf(),
        ensures
            forall|k: u8| #[trigger] r@.contains_key(k) <==> self.chain_ids@.contains(k),
            forall|i: int|
                0 <= i < self.chain_ids@.len() && is_last_occurrence(self.chain_ids@, i)
                    ==> r@.contains_key(#[trigger] self.chain_ids@[i]) && r@[self.chain_ids@[i]]@
                    == self.chain_configs@[i].contract.address@,
    {
        let n = self.chain_ids.len();
        let mut r: HashMap<u8, Vec<u8>> = HashMap::new();
        let mut m: usize = 0;
        while m < n
            invariant
                self.wf(),
                n == self.chain_ids@.len(),
                m <= n,
                forall|k: u8| #[trigger] r@.contains_key(k) <==> self.chain_ids@.take(
                    m as int,
                ).contains(k),
                forall|i: int|
                    0 <= i < m && (forall|j: int| i < j < m ==> self.chain_ids@[j]
                        != self.chain_ids@[i]) ==> r@.contains_key(#[trigger] self.chain_ids@[i])
                        && r@[self.chain_ids@[i]]@ == self.chain_configs@[i].contract.address@,
            decreases n - m,
        {
            let ghost old_map = r@;
            let key = self.chain_ids[m];
            let value = slice_to_vec(self.chain_configs[m].contract.address.as_slice());
            let ghost value_snap = value@;
            r.insert(key, value);
            proof {
                assert forall|k: u8| #[trigger] r@.contains_key(k) <==> self.chain_ids@.take(
                    m + 1,
                ).contains(k) by {
                    if r@.contains_key(k) {
                        if k == key {
                            assert(self.chain_ids@.take(m + 1)[m as int] == k);
                        } else {
                            assert(old_map.contains_key(k));
                            let w = choose|w: int|
                                0 <= w < m && #[trigger] self.chain_ids@.take(m as int)[w] == k;
                            assert(self.chain_ids@.take(m + 1)[w] == k);
                        }
                    }
                    if self.chain_ids@.take(m + 1).contains(k) {
                        let w = choose|w: int|
                            0 <= w < m + 1 && #[trigger] self.chain_ids@.take(m + 1)[w] == k;
                        if w < m {
                            assert(self.chain_ids@.take(m as int)[w] == k);
                            assert(old_map.contains_key(k));
                        }
                        assert(r@.contains_key(k));
                    }
                }
                assert forall|i: int|
                    0 <= i < m + 1 && (forall|j: int| i < j < m + 1 ==> self.chain_ids@[j]
                        != self.chain_ids@[i]) implies r@.contains_key(
                    #[trigger] self.chain_ids@[i],
                ) && r@[self.chain_ids@[i]]@ == self.chain_configs@[i].contract.address@ by {
                    if i == m {
                        assert(r@[key]@ == value_snap);
                    } else {
                        assert(self.chain_ids@[m as int] != self.chain_ids@[i]);
                        assert(r@[self.chain_ids@[i]] == old_map[self.chain_ids@[i]]);
                    }
                }
            }
            m = m + 1;
        }
        proof {
            assert(self.chain_ids@.take(n as int) =~= self.chain_ids@);
        }
        r
    }
}

} // verus!
