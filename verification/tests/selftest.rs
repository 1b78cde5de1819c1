use vfs495::{check_skey_dump, SKeyDump, SelftestError};

fn dump(master: &str, keyblock: &str) -> SKeyDump {
    SKeyDump {
        premaster: "0300000102030405060708090a0b0c0d0e0f101112131415161718191a1b1c1d1e1f202122232425262728292a2b2c2d".to_string(),
        client_random: "6465666768696a6b6c6d6e6f707172737475767778797a7b7c7d7e7f80818283".to_string(),
        server_random: "C8C9CACBCCCDCECFD0D1D2D3D4D5D6D7D8D9DADBDCDDDEDFE0E1E2E3E4E5E6E7".to_string(),
        master: master.to_string(),
        keyblock: keyblock.to_string(),
    }
}

const MASTER: &str = "1b1b74b4ee3df2ff1a91c32bc3d415e8250c27ad41905cb73ca457e313c7c430476f62cd5851786869377470e17e1ca2";
const KEYBLOCK: &str = "be57dbdb16b50e572be6ac5b4fdf7008599a28a1b74b47a3264238026f980189194b773c0052ca3914bc93f9e3cd89b916bf880ac91c9ec97e84949764141dd28507a3b7725d078c60c84dc945073852e9e2458691bf10233f0c2e5abee740ba57fcff218207a4f6fe81da78af0e4c92527228a00c6c1eb2fb8c0c3dc9408260416fcf4813421279";

#[test]
fn selftest_vectors_match() {
    let rep = check_skey_dump(&dump(MASTER, KEYBLOCK)).ok().unwrap();
    assert!(rep.master_ok);
    assert!(rep.keyblock_ok);
    assert_eq!(rep.master.len(), 48);
    assert_eq!(rep.keyblock.len(), 136);
}

#[test]
fn selftest_detects_mismatch() {
    let upper = MASTER.to_uppercase();
    let rep = check_skey_dump(&dump(&upper, "00")).ok().unwrap();
    assert!(!rep.master_ok);
    assert!(!rep.keyblock_ok);
}

#[test]
fn selftest_bad_hex() {
    let mut d = dump(MASTER, KEYBLOCK);
    d.client_random = "123".to_string();
    assert!(matches!(check_skey_dump(&d), Err(SelftestError::ClientRandom(_))));
    d.premaster = "xx".to_string();
    assert!(matches!(check_skey_dump(&d), Err(SelftestError::Premaster(_))));
    let mut d = dump(MASTER, KEYBLOCK);
    d.server_random = "0".to_string();
    assert!(matches!(check_skey_dump(&d), Err(SelftestError::ServerRandom(_))));
}
