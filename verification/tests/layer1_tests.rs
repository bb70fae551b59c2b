use zklink_codec::layer1::Layer1Config;
use zklink_codec::layer1::MultiChainConfigs;

#[test]
fn layer1_config_from_env_values() {
    let config = Layer1Config::from_env(3, vec![0xaa, 0xbb], String::from("http://node-three"));
    assert_eq!(config.chain.chain_id, 3);
    assert_eq!(config.contract.chain_id, 3);
    assert_eq!(config.contract.address, vec![0xaa, 0xbb]);
    assert_eq!(config.client.chain_id, 3);
    assert_eq!(config.client.web3_url, "http://node-three");
}

#[test]
fn multi_chain_configs_from_env_values() {
    let configs = MultiChainConfigs::from_env(
        vec![1, 2],
        &vec![vec![0x11], vec![0x22]],
        &vec![String::from("http://one"), String::from("http://two")],
    );
    assert_eq!(configs.chain_ids, vec![1, 2]);
    assert_eq!(configs.chain_configs.len(), 2);
    assert_eq!(configs.chain_configs[0].chain.chain_id, 1);
    assert_eq!(configs.chain_configs[0].contract.address, vec![0x11]);
    assert_eq!(configs.chain_configs[1].client.web3_url, "http://two");
}

#[test]
fn get_contracts_maps_each_chain_to_its_address() {
    let configs = MultiChainConfigs::from_env(
        vec![1, 5],
        &vec![vec![0x11], vec![0x55]],
        &vec![String::from("http://one"), String::from("http://five")],
    );
    let contracts = configs.get_contracts();
    assert_eq!(contracts.len(), 2);
    assert_eq!(contracts.get(&1), Some(&vec![0x11u8]));
    assert_eq!(contracts.get(&5), Some(&vec![0x55u8]));
    assert_eq!(contracts.get(&9), None);
}

#[test]
fn get_contracts_last_duplicate_wins() {
    let configs = MultiChainConfigs::from_env(
        vec![4, 4],
        &vec![vec![0x01], vec![0x02]],
        &vec![String::from("http://a"), String::from("http://b")],
    );
    let contracts = configs.get_contracts();
    assert_eq!(contracts.len(), 1);
    assert_eq!(contracts.get(&4), Some(&vec![0x02u8]));
}
