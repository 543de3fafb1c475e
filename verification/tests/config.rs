use hyperlicked::config::{Config, EnvVars, Mode, NodeRole};

#[test]
fn test_mode_default_is_dev() {
    // Without MODE env var, should default to dev
    assert!(Mode::from_env(&None).is_dev());
}

#[test]
fn test_config_defaults() {
    let config = Config::from_env(&EnvVars::unset());
    assert!(config.mode.is_dev());
    assert_eq!(config.faucet_amount, 10_000_000); // $100k
}

#[test]
fn test_node_role_default_is_validator() {
    // Without NODE_ROLE env var, should default to validator
    assert!(NodeRole::from_env(&None).is_validator());
}

#[test]
fn test_node_role_display() {
    assert_eq!(NodeRole::Validator.to_string(), "validator");
    assert_eq!(NodeRole::Rpc.to_string(), "rpc");
}

#[test]
fn test_config_node_role() {
    let config = Config::from_env(&EnvVars::unset());
    assert!(config.node_role.is_validator());
    assert!(config.peers.is_empty());
}

#[test]
fn test_production_safety_dev_mode_allows_skip_flags() {
    let mut config = Config::from_env(&EnvVars::unset());
    config.mode = Mode::Dev;
    config.skip_signature_verification = true;
    config.skip_qc_verify = true;
    // Dev mode should allow these flags
    assert!(config.validate_production_safety().is_ok());
}

#[test]
fn test_production_safety_testnet_rejects_skip_sig_verify() {
    let mut config = Config::from_env(&EnvVars::unset());
    config.mode = Mode::Testnet;
    config.skip_signature_verification = true;
    config.skip_qc_verify = false;
    // Testnet should reject SKIP_SIG_VERIFY
    let result = config.validate_production_safety();
    assert!(result.is_err());
    assert!(result.unwrap_err().contains("SKIP_SIG_VERIFY"));
}

#[test]
fn test_production_safety_mainnet_rejects_skip_qc_verify() {
    let mut config = Config::from_env(&EnvVars::unset());
    config.mode = Mode::Mainnet;
    config.skip_signature_verification = false;
    config.skip_qc_verify = true;
    // Mainnet should reject SKIP_QC_VERIFY
    let result = config.validate_production_safety();
    assert!(result.is_err());
    assert!(result.unwrap_err().contains("SKIP_QC_VERIFY"));
}

#[test]
fn test_production_safety_mainnet_allows_safe_config() {
    let mut config = Config::from_env(&EnvVars::unset());
    config.mode = Mode::Mainnet;
    config.skip_signature_verification = false;
    config.skip_qc_verify = false;
    // Mainnet with safe flags should pass
    assert!(config.validate_production_safety().is_ok());
}
