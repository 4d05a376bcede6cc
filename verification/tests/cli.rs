use storescp::config::Config;

#[test]
fn verify_cli() {
    let defaults = Config::default();
    assert_eq!(defaults.calling_ae_title, "STORE-SCP");
    assert!(!defaults.strict);
    assert!(!defaults.uncompressed_only);
    assert_eq!(defaults.max_pdu_length, 16384);
    assert_eq!(defaults.out_dir, ".");
    assert_eq!(defaults.port, 11111);
    assert!(!defaults.verbose);
}
