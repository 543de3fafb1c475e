//! Runtime configuration from environment variables.
//!
//! The mode is `dev` by default; `testnet` and `mainnet` turn off the faucet
//! and all shortcuts in verification. The role is `validator` by default;
//! `rpc` nodes follow the chain and serve requests.

use vstd::prelude::*;

use crate::text::{trim_text, trimmed};

verus! {

/// Runtime mode.
#[derive(Debug, Clone, Copy, PartialEq, Eq)]
pub enum Mode {
    /// Faucet, relaxed validation.
    Dev,
    /// Real validation on a test network.
    Testnet,
    /// Real validation in production.
    Mainnet,
}

/// The mode that a variable selects.
pub open spec fn mode_of(var: Option<Seq<char>>) -> Mode {
    if var == Some("mainnet"@) || var == Some("production"@) {
        Mode::Mainnet
    } else if var == Some("testnet"@) || var == Some("staging"@) {
        Mode::Testnet
    } else {
        Mode::Dev
    }
}

/// The text of an optional variable.
pub open spec fn text_of(var: Option<String>) -> Option<Seq<char>> {
    match var {
        Some(s) => Some(s@),
        None => None,
    }
}

/// Whether a variable has a given value.
fn is_value(var: &Option<String>, value: &str) -> (r: bool)
    ensures
        r == (text_of(*var) == Some(value@)),
{
    match var {
        Some(s) => *s == value.to_string(),
        None => false,
    }
}

impl Mode {
    /// The mode that the variable `MODE` selects.
    pub fn from_env(var: &Option<String>) -> (r: Self)
        ensures
            r == mode_of(text_of(*var)),
    {
        if is_value(var, "mainnet") || is_value(var, "production") {
            Mode::Mainnet
        } else if is_value(var, "testnet") || is_value(var, "staging") {
            Mode::Testnet
        } else {
            Mode::Dev
        }
    }

    /// Whether this is the development mode.
    pub fn is_dev(&self) -> (r: bool)
        ensures
            r == (*self == Mode::Dev),
    {
        matches!(self, Mode::Dev)
    }

    /// Whether this is the production mode.
    pub fn is_production(&self) -> (r: bool)
        ensures
            r == (*self == Mode::Mainnet),
    {
        matches!(self, Mode::Mainnet)
    }

    /// The name of the mode.
    pub fn to_string(&self) -> (r: String)
        ensures
            r@ == (match *self {
                Mode::Dev => "dev"@,
                Mode::Testnet => "testnet"@,
                Mode::Mainnet => "mainnet"@,
            }),
    {
        match self {
            Mode::Dev => "dev".to_string(),
            Mode::Testnet => "testnet".to_string(),
            Mode::Mainnet => "mainnet".to_string(),
        }
    }
}

/// Role of a node in the network.
#[derive(Debug, Clone, Copy, PartialEq, Eq)]
pub enum NodeRole {
    /// Proposes blocks and votes.
    Validator,
    /// Follows the chain and serves requests.
    Rpc,
}

/// The role that a variable selects.
pub open spec fn role_of(var: Option<Seq<char>>) -> NodeRole {
    if var == Some("rpc"@) || var == Some("observer"@) {
        NodeRole::Rpc
    } else {
        NodeRole::Validator
    }
}

impl NodeRole {
    /// The role that the variable `NODE_ROLE` selects.
    pub fn from_env(var: &Option<String>) -> (r: Self)
        ensures
            r == role_of(text_of(*var)),
    {
        if is_value(var, "rpc") || is_value(var, "observer") {
            NodeRole::Rpc
        } else {
            NodeRole::Validator
        }
    }

    /// Whether the node takes part in consensus.
    pub fn is_validator(&self) -> (r: bool)
        ensures
            r == (*self == NodeRole::Validator),
    {
        matches!(self, NodeRole::Validator)
    }

    /// Whether the node only follows the chain.
    pub fn is_rpc(&self) -> (r: bool)
        ensures
            r == (*self == NodeRole::Rpc),
    {
        matches!(self, NodeRole::Rpc)
    }

    /// The name of the role.
    pub fn to_string(&self) -> (r: String)
        ensures
            r@ == (match *self {
                NodeRole::Validator => "validator"@,
                NodeRole::Rpc => "rpc"@,
            }),
    {
        match self {
            NodeRole::Validator => "validator".to_string(),
            NodeRole::Rpc => "rpc".to_string(),
        }
    }
}

/// The value of a decimal digit.
pub open spec fn digit_value(c: char) -> Option<nat> {
    if '0' <= c <= '9' {
        Some((c as u32 - '0' as u32) as nat)
    } else {
        None
    }
}

/// The number that a string of decimal digits stands for.
pub open spec fn digits_value(s: Seq<char>) -> Option<nat>
    decreases s.len(),
{
    if s.len() == 0 {
        Some(0)
    } else {
        match (digits_value(s.drop_last()), digit_value(s.last())) {
            (Some(v), Some(d)) => Some(v * 10 + d),
            _ => None,
        }
    }
}

/// The number that a decimal text stands for, if it is at most a bound: digits
/// after an optional plus sign.
pub open spec fn unsigned_value(s: Seq<char>, max: nat) -> Option<nat> {
    let body = if s.len() > 0 && s[0] == '+' {
        s.skip(1)
    } else {
        s
    };
    match digits_value(body) {
        Some(v) => if body.len() > 0 && v <= max {
            Some(v)
        } else {
            None
        },
        None => None,
    }
}

/// The number that a decimal text stands for, if it fits in 64 signed bits:
/// digits after an optional sign.
pub open spec fn signed_value(s: Seq<char>) -> Option<int> {
    if s.len() > 0 && s[0] == '-' {
        match digits_value(s.skip(1)) {
            Some(v) => if s.len() > 1 && v <= 0x8000_0000_0000_0000 {
                Some(-(v as int))
            } else {
                None
            },
            None => None,
        }
    } else {
        match unsigned_value(s, i64::MAX as nat) {
            Some(v) => Some(v as int),
            None => None,
        }
    }
}

/// A longer string of digits stands for a number that is no smaller.
proof fn lemma_digits_grow(s: Seq<char>, k: int)
    requires
        0 <= k <= s.len(),
        digits_value(s) is Some,
    ensures
        digits_value(s.take(k)) is Some,
        digits_value(s.take(k))->Some_0 <= digits_value(s)->Some_0,
    decreases s.len() - k,
{
    if k == s.len() {
        assert(s.take(k) =~= s);
    } else {
        lemma_digits_grow(s, k + 1);
        assert(s.take(k + 1).drop_last() =~= s.take(k));
    }
}

/// Reads the digits of a text from a position on, as long as the number is at
/// most a bound.
fn read_digits(s: &str, from: usize, max: u64) -> (r: Option<u64>)
    requires
        from <= s@.len(),
    ensures
        r == (match digits_value(s@.skip(from as int)) {
            Some(v) => if s@.len() > from && v <= max {
                Some(v as u64)
            } else {
                None
            },
            None => None,
        }),
{
    let n: usize = s.unicode_len();
    if n == from {
        return None;
    }
    let ghost body = s@.skip(from as int);
    let mut value: u64 = 0;
    let mut i: usize = from;
    assert(body.take(0) =~= Seq::empty());
    while i < n
        invariant
            n == s@.len(),
            from <= i <= n,
            from < n,
            body == s@.skip(from as int),
            digits_value(body.take(i - from)) == Some(value as nat),
            value <= max,
        decreases n - i,
    {
        let c = s.get_char(i);
        proof {
            assert(body[i - from] == c);
            assert(body.take(i + 1 - from).drop_last() =~= body.take(i - from));
            assert(body.take(i + 1 - from).last() == c);
            if digits_value(body) is Some {
                lemma_digits_grow(body, i + 1 - from);
            }
        }
        if !('0' <= c && c <= '9') {
            return None;
        }
        let d: u32 = c as u32 - '0' as u32;
        let next: u128 = value as u128 * 10 + d as u128;
        if next > max as u128 {
            return None;
        }
        value = next as u64;
        i = i + 1;
    }
    assert(body.take(n - from) =~= body);
    Some(value)
}

/// Parses a decimal number of at most a bound.
pub fn parse_unsigned(s: &str, max: u64) -> (r: Option<u64>)
    ensures
        r == (match unsigned_value(s@, max as nat) {
            Some(v) => Some(v as u64),
            None => None,
        }),
{
    assert(s@.skip(0) =~= s@);
    if s.unicode_len() > 0 && s.get_char(0) == '+' {
        read_digits(s, 1, max)
    } else {
        read_digits(s, 0, max)
    }
}

/// Parses a signed decimal number.
pub fn parse_signed(s: &str) -> (r: Option<i64>)
    ensures
        r == (match signed_value(s@) {
            Some(v) => Some(v as i64),
            None => None,
        }),
{
    if s.unicode_len() > 0 && s.get_char(0) == '-' {
        match read_digits(s, 1, 0x8000_0000_0000_0000) {
            Some(v) => if v == 0x8000_0000_0000_0000 {
                Some(i64::MIN)
            } else {
                Some(-(v as i64))
            },
            None => None,
        }
    } else {
        match parse_unsigned(s, 0x7fff_ffff_ffff_ffff) {
            Some(v) => Some(v as i64),
            None => None,
        }
    }
}

/// The non-empty trimmed parts of a comma-separated text, given where the
/// current part starts and how far it was read.
pub open spec fn parts_from(s: Seq<char>, start: int, i: int) -> Seq<Seq<char>>
    decreases s.len() - i,
{
    if i < 0 || start < 0 || start > i || i > s.len() {
        Seq::empty()
    } else if i == s.len() || s[i] == ',' {
        let part = trimmed(s.subrange(start, i));
        let head = if part.len() == 0 {
            Seq::empty()
        } else {
            seq![part]
        };
        if i == s.len() {
            head
        } else {
            head + parts_from(s, i + 1, i + 1)
        }
    } else {
        parts_from(s, start, i + 1)
    }
}

/// The texts of a list of strings.
pub open spec fn texts_of(list: Seq<String>) -> Seq<Seq<char>> {
    list.map_values(|s: String| s@)
}

/// The non-empty trimmed parts of a comma-separated text.
pub fn split_list(s: &str) -> (r: Vec<String>)
    ensures
        texts_of(r@) == parts_from(s@, 0, 0),
{
    let n: usize = s.unicode_len();
    let mut r: Vec<String> = Vec::new();
    let mut start: usize = 0;
    let mut i: usize = 0;
    let ghost all = parts_from(s@, 0, 0);
    assert(texts_of(r@) + all =~= all);
    while i < n
        invariant
            n == s@.len(),
            start <= i <= n,
            texts_of(r@) + parts_from(s@, start as int, i as int) == all,
        decreases n - i,
    {
        if s.get_char(i) == ',' {
            let ghost before = texts_of(r@);
            let part = trim_text(s.substring_char(start, i));
            let ghost rest = parts_from(s@, i + 1, i + 1);
            if !is_blank(&part) {
                let ghost p = part@;
                r.push(part);
                assert(texts_of(r@) =~= before.push(p));
                assert(before + (seq![p] + rest) =~= before.push(p) + rest);
            } else {
                assert(before + (Seq::<Seq<char>>::empty() + rest) =~= before + rest);
            }
            start = i + 1;
        }
        i = i + 1;
    }
    let ghost before = texts_of(r@);
    let part = trim_text(s.substring_char(start, n));
    if !is_blank(&part) {
        let ghost p = part@;
        r.push(part);
        assert(texts_of(r@) =~= before.push(p));
        assert(before + seq![p] =~= before.push(p));
    } else {
        assert(before + Seq::<Seq<char>>::empty() =~= before);
    }
    r
}

/// Whether a text is empty.
pub(crate) fn is_blank(s: &String) -> (r: bool)
    ensures
        r == (s@.len() == 0),
{
    s.as_str().unicode_len() == 0
}

/// The values of the environment variables that configure a node.
pub struct EnvVars {
    pub mode: Option<String>,
    pub node_role: Option<String>,
    pub dev_faucet_amount: Option<String>,
    pub skip_sig_verify: Option<String>,
    pub skip_qc_verify: Option<String>,
    pub peers: Option<String>,
    pub block_time_ms: Option<String>,
    pub consensus_loop_delay_ms: Option<String>,
    pub log_blocks: Option<String>,
    pub port: Option<String>,
    pub data_dir: Option<String>,
    pub snapshot_interval: Option<String>,
    pub oracle_enabled: Option<String>,
    pub mm_enabled: Option<String>,
    pub sync_poll_interval_ms: Option<String>,
    pub peer_blacklist_threshold: Option<String>,
    pub peer_blacklist_duration_ms: Option<String>,
    pub max_liquidations_per_block: Option<String>,
    pub mempool_max_per_bucket: Option<String>,
    pub mempool_max_age_ms: Option<String>,
    pub mempool_max_per_address: Option<String>,
}

/// An environment in which no variable is set.
pub open spec fn unset_vars() -> EnvVars {
    EnvVars {
        mode: None,
        node_role: None,
        dev_faucet_amount: None,
        skip_sig_verify: None,
        skip_qc_verify: None,
        peers: None,
        block_time_ms: None,
        consensus_loop_delay_ms: None,
        log_blocks: None,
        port: None,
        data_dir: None,
        snapshot_interval: None,
        oracle_enabled: None,
        mm_enabled: None,
        sync_poll_interval_ms: None,
        peer_blacklist_threshold: None,
        peer_blacklist_duration_ms: None,
        max_liquidations_per_block: None,
        mempool_max_per_bucket: None,
        mempool_max_age_ms: None,
        mempool_max_per_address: None,
    }
}

impl EnvVars {
    /// No variable is set.
    pub fn unset() -> (r: Self)
        ensures
            r == unset_vars(),
    {
        EnvVars {
            mode: None,
            node_role: None,
            dev_faucet_amount: None,
            skip_sig_verify: None,
            skip_qc_verify: None,
            peers: None,
            block_time_ms: None,
            consensus_loop_delay_ms: None,
            log_blocks: None,
            port: None,
            data_dir: None,
            snapshot_interval: None,
            oracle_enabled: None,
            mm_enabled: None,
            sync_poll_interval_ms: None,
            peer_blacklist_threshold: None,
            peer_blacklist_duration_ms: None,
            max_liquidations_per_block: None,
            mempool_max_per_bucket: None,
            mempool_max_age_ms: None,
            mempool_max_per_address: None,
        }
    }
}

/// The number that a variable holds, or a default.
pub open spec fn number_or(var: Option<Seq<char>>, max: nat, default: nat) -> nat {
    match var {
        Some(s) => match unsigned_value(s, max) {
            Some(v) => v,
            None => default,
        },
        None => default,
    }
}

/// The number that a variable holds, or a default.
fn read_number(var: &Option<String>, max: u64, default: u64) -> (r: u64)
    requires
        default <= max,
    ensures
        r == number_or(text_of(*var), max as nat, default as nat),
        r <= max,
{
    match var {
        Some(s) => match parse_unsigned(s.as_str(), max) {
            Some(v) => v,
            None => default,
        },
        None => default,
    }
}

/// A variable switches something on.
pub open spec fn is_on(var: Option<Seq<char>>) -> bool {
    var == Some("true"@) || var == Some("1"@)
}

/// Whether a variable switches something on.
fn read_switch(var: &Option<String>) -> (r: bool)
    ensures
        r == is_on(text_of(*var)),
{
    is_value(var, "true") || is_value(var, "1")
}

/// Runtime configuration.
pub struct Config {
    pub mode: Mode,
    pub node_role: NodeRole,
    /// Amount, in cents, that a new account gets in development mode.
    pub faucet_amount: i64,
    /// Block time in milliseconds; zero is as fast as possible.
    pub block_time_ms: u64,
    /// Pause of the consensus loop in milliseconds.
    pub consensus_loop_delay_ms: u64,
    /// Log empty blocks too.
    pub log_all_blocks: bool,
    /// Take transactions without verifying their signatures.
    pub skip_signature_verification: bool,
    pub port: u16,
    /// Where data is kept; without it, only in memory.
    pub data_dir: Option<String>,
    /// Committed blocks between two snapshots; zero takes none.
    pub snapshot_interval: u64,
    pub oracle_enabled: bool,
    pub mm_enabled: bool,
    /// Addresses to catch up from.
    pub peers: Vec<String>,
    pub sync_poll_interval_ms: u64,
    /// Follow blocks without verifying their certificates.
    pub skip_qc_verify: bool,
    /// Failures in a row after which a peer is avoided.
    pub peer_blacklist_threshold: u32,
    pub peer_blacklist_duration_ms: u64,
    pub max_liquidations_per_block: usize,
    pub mempool_max_per_bucket: usize,
    pub mempool_max_age_ms: u64,
    pub mempool_max_per_address: usize,
}

/// The faucet amount: none outside development mode.
pub open spec fn faucet_of(mode: Mode, var: Option<Seq<char>>) -> int {
    if mode != Mode::Dev {
        0
    } else {
        match var {
            Some(s) => match signed_value(s) {
                Some(v) => v,
                None => 10_000_000,
            },
            None => 10_000_000,
        }
    }
}

/// The configuration is the one that environment variables give.
pub open spec fn config_of(r: Config, vars: EnvVars) -> bool {
    &&& r.mode == mode_of(text_of(vars.mode))
    &&& r.node_role == role_of(text_of(vars.node_role))
    &&& r.faucet_amount == faucet_of(r.mode, text_of(vars.dev_faucet_amount))
    &&& r.skip_signature_verification == (r.mode == Mode::Dev && is_on(
        text_of(vars.skip_sig_verify),
    ))
    &&& r.skip_qc_verify == (r.mode == Mode::Dev && is_on(text_of(vars.skip_qc_verify)))
    &&& r.mode == Mode::Dev || !(r.skip_signature_verification || r.skip_qc_verify)
    &&& texts_of(r.peers@) == (match vars.peers {
        Some(s) => parts_from(s@, 0, 0),
        None => Seq::empty(),
    })
    &&& r.block_time_ms == number_or(text_of(vars.block_time_ms), u64::MAX as nat, 100)
    &&& r.consensus_loop_delay_ms == number_or(
        text_of(vars.consensus_loop_delay_ms),
        u64::MAX as nat,
        10,
    )
    &&& r.log_all_blocks == is_on(text_of(vars.log_blocks))
    &&& r.port == number_or(text_of(vars.port), u16::MAX as nat, 8080)
    &&& text_of(r.data_dir) == text_of(vars.data_dir)
    &&& r.snapshot_interval == number_or(text_of(vars.snapshot_interval), u64::MAX as nat, 1000)
    &&& r.oracle_enabled == is_on(text_of(vars.oracle_enabled))
    &&& r.mm_enabled == is_on(text_of(vars.mm_enabled))
    &&& r.sync_poll_interval_ms == number_or(
        text_of(vars.sync_poll_interval_ms),
        u64::MAX as nat,
        1000,
    )
    &&& r.peer_blacklist_threshold == number_or(
        text_of(vars.peer_blacklist_threshold),
        u32::MAX as nat,
        5,
    )
    &&& r.peer_blacklist_duration_ms == number_or(
        text_of(vars.peer_blacklist_duration_ms),
        u64::MAX as nat,
        60_000,
    )
    &&& r.max_liquidations_per_block == number_or(
        text_of(vars.max_liquidations_per_block),
        usize::MAX as nat,
        100,
    )
    &&& r.mempool_max_per_bucket == number_or(
        text_of(vars.mempool_max_per_bucket),
        usize::MAX as nat,
        10_000,
    )
    &&& r.mempool_max_age_ms == number_or(
        text_of(vars.mempool_max_age_ms),
        u64::MAX as nat,
        3_600_000,
    )
    &&& r.mempool_max_per_address == number_or(
        text_of(vars.mempool_max_per_address),
        usize::MAX as nat,
        100,
    )
}

impl Config {
    /// The configuration that the environment variables give.
    pub fn from_env(vars: &EnvVars) -> (r: Self)
        ensures
            config_of(r, *vars),
            r.mode == Mode::Dev || !(r.skip_signature_verification || r.skip_qc_verify),
    {
        let mode = Mode::from_env(&vars.mode);
        let faucet_amount: i64 = if mode.is_dev() {
            match &vars.dev_faucet_amount {
                Some(s) => match parse_signed(s.as_str()) {
                    Some(v) => v,
                    None => 10_000_000,
                },
                None => 10_000_000,
            }
        } else {
            0
        };
        let peers = match &vars.peers {
            Some(s) => split_list(s.as_str()),
            None => {
                let none: Vec<String> = Vec::new();
                assert(texts_of(none@) =~= Seq::empty());
                none
            },
        };
        let data_dir = match &vars.data_dir {
            Some(s) => Some(s.clone()),
            None => None,
        };
        Config {
            mode,
            node_role: NodeRole::from_env(&vars.node_role),
            faucet_amount,
            block_time_ms: read_number(&vars.block_time_ms, u64::MAX, 100),
            consensus_loop_delay_ms: read_number(&vars.consensus_loop_delay_ms, u64::MAX, 10),
            log_all_blocks: read_switch(&vars.log_blocks),
            skip_signature_verification: mode.is_dev() && read_switch(&vars.skip_sig_verify),
            port: read_number(&vars.port, u16::MAX as u64, 8080) as u16,
            data_dir,
            snapshot_interval: read_number(&vars.snapshot_interval, u64::MAX, 1000),
            oracle_enabled: read_switch(&vars.oracle_enabled),
            mm_enabled: read_switch(&vars.mm_enabled),
            peers,
            sync_poll_interval_ms: read_number(&vars.sync_poll_interval_ms, u64::MAX, 1000),
            skip_qc_verify: mode.is_dev() && read_switch(&vars.skip_qc_verify),
            peer_blacklist_threshold: read_number(
                &vars.peer_blacklist_threshold,
                u32::MAX as u64,
                5,
            ) as u32,
            peer_blacklist_duration_ms: read_number(
                &vars.peer_blacklist_duration_ms,
                u64::MAX,
                60_000,
            ),
            max_liquidations_per_block: read_number(
                &vars.max_liquidations_per_block,
                usize::MAX as u64,
                100,
            ) as usize,
            mempool_max_per_bucket: read_number(
                &vars.mempool_max_per_bucket,
                usize::MAX as u64,
                10_000,
            ) as usize,
            mempool_max_age_ms: read_number(&vars.mempool_max_age_ms, u64::MAX, 3_600_000),
            mempool_max_per_address: read_number(
                &vars.mempool_max_per_address,
                usize::MAX as u64,
                100,
            ) as usize,
        }
    }

    /// Refuses to run with verification switched off outside development mode.
    pub fn validate_production_safety(&self) -> (r: Result<(), String>)
        ensures
            match r {
                Ok(()) => self.mode == Mode::Dev || !(self.skip_signature_verification
                    || self.skip_qc_verify),
                Err(e) => self.mode != Mode::Dev && if self.skip_signature_verification {
                    e@ == unsafe_signatures()
                } else {
                    self.skip_qc_verify && e@ == unsafe_certificates()
                },
            },
    {
        if !self.mode.is_dev() {
            if self.skip_signature_verification {
                return Err(
                    "FATAL: SKIP_SIG_VERIFY=true is not allowed in production (MODE != dev). This flag disables EIP-712 signature verification and is DANGEROUS.".to_string(),
                );
            }
            if self.skip_qc_verify {
                return Err(
                    "FATAL: SKIP_QC_VERIFY=true is not allowed in production (MODE != dev). This flag disables BLS QC verification and is DANGEROUS.".to_string(),
                );
            }
        }
        Ok(())
    }
}

/// What is said of switched-off signature verification.
pub open spec fn unsafe_signatures() -> Seq<char> {
    "FATAL: SKIP_SIG_VERIFY=true is not allowed in production (MODE != dev). This flag disables EIP-712 signature verification and is DANGEROUS."@
}

/// What is said of switched-off certificate verification.
pub open spec fn unsafe_certificates() -> Seq<char> {
    "FATAL: SKIP_QC_VERIFY=true is not allowed in production (MODE != dev). This flag disables BLS QC verification and is DANGEROUS."@
}

impl Default for Config {
    /// The configuration of an environment in which no variable is set. A
    /// program reads its variables and hands them to `Config::from_env`.
    fn default() -> (r: Self)
        ensures
            config_of(r, unset_vars()),
            r.mode == Mode::Dev,
            r.node_role == NodeRole::Validator,
            r.faucet_amount == 10_000_000,
            !r.skip_signature_verification,
            !r.skip_qc_verify,
            r.peers@.len() == 0,
            r.block_time_ms == 100,
            r.consensus_loop_delay_ms == 10,
            !r.log_all_blocks,
            r.port == 8080,
            r.data_dir is None,
            r.snapshot_interval == 1000,
            !r.oracle_enabled,
            !r.mm_enabled,
            r.sync_poll_interval_ms == 1000,
            r.peer_blacklist_threshold == 5,
            r.peer_blacklist_duration_ms == 60_000,
            r.max_liquidations_per_block == 100,
            r.mempool_max_per_bucket == 10_000,
            r.mempool_max_age_ms == 3_600_000,
            r.mempool_max_per_address == 100,
    {
        let r = Config::from_env(&EnvVars::unset());
        assert(texts_of(r.peers@).len() == 0);
        r
    }
}

/// A number that is written out is read back, as long as it is within the limit; beyond
/// it, it is refused.
pub proof fn lemma_number_read_back(n: nat, max: nat)
    ensures
        n <= max ==> unsigned_value(crate::text::decimal(n), max) == Some(n),
        n > max ==> unsigned_value(crate::text::decimal(n), max) is None,
        n <= i64::MAX ==> signed_value(crate::text::decimal(n)) == Some(n as int),
{
    let s = crate::text::decimal(n);
    crate::text::lemma_decimal(n);
    lemma_decimal_value(n);
    assert('0' <= s[0] <= '9');
}

proof fn lemma_decimal_value(n: nat)
    ensures
        digits_value(crate::text::decimal(n)) == Some(n),
    decreases n,
{
    crate::text::lemma_decimal(n);
    let s = crate::text::decimal(n);
    if n < 10 {
        assert(s.drop_last() =~= Seq::empty());
        assert(digits_value(s.drop_last()) == Some(0nat));
        assert(s.last() == s[0]);
        assert('0' <= s[0] <= '9');
        assert(digit_value(s.last()) == Some(n));
    } else {
        lemma_decimal_value(n / 10);
        assert(s[s.len() - 1] == s.last());
        assert('0' <= s[s.len() - 1] <= '9');
        assert(digit_value(s.last()) == Some(n % 10));
        assert((n / 10) * 10 + n % 10 == n);
    }
}

/// A text with anything but digits behind an optional plus sign is no number, and
/// neither is one without digits.
pub proof fn lemma_not_a_number(s: Seq<char>, max: nat, i: int)
    ensures
        s.len() == 0 ==> unsigned_value(s, max) is None,
        0 < i < s.len() && !('0' <= s[i] <= '9') ==> unsigned_value(s, max) is None,
        s.len() > 0 && s[0] != '+' && !('0' <= s[0] <= '9') ==> unsigned_value(s, max) is None,
        s.len() == 1 && s[0] == '+' ==> unsigned_value(s, max) is None,
{
    if 0 < i < s.len() && !('0' <= s[i] <= '9') {
        if s[0] == '+' {
            assert(s.skip(1)[i - 1] == s[i]);
            lemma_bad_digit(s.skip(1), i - 1);
        } else {
            lemma_bad_digit(s, i);
        }
    }
    if s.len() > 0 && s[0] != '+' && !('0' <= s[0] <= '9') {
        lemma_bad_digit(s, 0);
    }
}

proof fn lemma_bad_digit(s: Seq<char>, i: int)
    requires
        0 <= i < s.len(),
        !('0' <= s[i] <= '9'),
    ensures
        digits_value(s) is None,
    decreases s.len(),
{
    if i < s.len() - 1 {
        assert(s.drop_last()[i] == s[i]);
        lemma_bad_digit(s.drop_last(), i);
    }
}

/// A minus sign makes a number negative, down to the smallest one of 64 bits.
pub proof fn lemma_negative_read_back(n: nat)
    ensures
        n <= 0x8000_0000_0000_0000 ==> signed_value(seq!['-'] + crate::text::decimal(n)) == Some(
            -(n as int),
        ),
        n > 0x8000_0000_0000_0000 ==> signed_value(seq!['-'] + crate::text::decimal(n)) is None,
{
    crate::text::lemma_decimal(n);
    lemma_decimal_value(n);
    let s = seq!['-'] + crate::text::decimal(n);
    assert(s.skip(1) =~= crate::text::decimal(n));
}

/// What a configuration is without variables.
pub proof fn lemma_defaults(r: Config)
    requires
        config_of(r, unset_vars()),
    ensures
        r.mode == Mode::Dev,
        r.node_role == NodeRole::Validator,
        r.faucet_amount == 10_000_000,
        !r.skip_signature_verification,
        !r.skip_qc_verify,
        r.peers@.len() == 0,
        r.block_time_ms == 100,
        r.consensus_loop_delay_ms == 10,
        !r.log_all_blocks,
        r.port == 8080,
        r.data_dir is None,
        r.snapshot_interval == 1000,
        !r.oracle_enabled,
        !r.mm_enabled,
        r.sync_poll_interval_ms == 1000,
        r.peer_blacklist_threshold == 5,
        r.peer_blacklist_duration_ms == 60_000,
        r.max_liquidations_per_block == 100,
        r.mempool_max_per_bucket == 10_000,
        r.mempool_max_age_ms == 3_600_000,
        r.mempool_max_per_address == 100,
{
    assert(texts_of(r.peers@).len() == r.peers@.len());
}

/// Checks are skipped and the faucet gives only in development, and only if asked for:
/// by the words `true` or `1`.
pub proof fn lemma_unsafe_only_in_development(r: Config, vars: EnvVars)
    requires
        config_of(r, vars),
    ensures
        r.skip_signature_verification ==> r.mode == Mode::Dev && (text_of(vars.skip_sig_verify)
            == Some("true"@) || text_of(vars.skip_sig_verify) == Some("1"@)),
        r.skip_qc_verify ==> r.mode == Mode::Dev && (text_of(vars.skip_qc_verify) == Some("true"@)
            || text_of(vars.skip_qc_verify) == Some("1"@)),
        r.mode == Mode::Dev && text_of(vars.skip_sig_verify) == Some("true"@)
            ==> r.skip_signature_verification,
        r.mode == Mode::Dev && text_of(vars.skip_qc_verify) == Some("1"@) ==> r.skip_qc_verify,
        r.mode != Mode::Dev ==> r.faucet_amount == 0,
        r.mode == Mode::Mainnet <==> text_of(vars.mode) == Some("mainnet"@) || text_of(vars.mode)
            == Some("production"@),
        r.node_role == NodeRole::Rpc <==> text_of(vars.node_role) == Some("rpc"@) || text_of(
            vars.node_role,
        ) == Some("observer"@),
{
}

/// A number that is set and can be read takes the place of its default.
pub proof fn lemma_settings_read(r: Config, vars: EnvVars, n: nat)
    requires
        config_of(r, vars),
    ensures
        text_of(vars.block_time_ms) == Some(crate::text::decimal(n)) && n <= u64::MAX
            ==> r.block_time_ms == n,
        text_of(vars.consensus_loop_delay_ms) == Some(crate::text::decimal(n)) && n <= u64::MAX
            ==> r.consensus_loop_delay_ms == n,
        text_of(vars.port) == Some(crate::text::decimal(n)) && n <= u16::MAX ==> r.port == n,
        text_of(vars.port) == Some(crate::text::decimal(n)) && n > u16::MAX ==> r.port == 8080,
        text_of(vars.snapshot_interval) == Some(crate::text::decimal(n)) && n <= u64::MAX
            ==> r.snapshot_interval == n,
        text_of(vars.sync_poll_interval_ms) == Some(crate::text::decimal(n)) && n <= u64::MAX
            ==> r.sync_poll_interval_ms == n,
        text_of(vars.peer_blacklist_threshold) == Some(crate::text::decimal(n)) && n <= u32::MAX
            ==> r.peer_blacklist_threshold == n,
        text_of(vars.peer_blacklist_duration_ms) == Some(crate::text::decimal(n)) && n <= u64::MAX
            ==> r.peer_blacklist_duration_ms == n,
        text_of(vars.max_liquidations_per_block) == Some(crate::text::decimal(n)) && n <= usize::MAX
            ==> r.max_liquidations_per_block == n,
        text_of(vars.mempool_max_per_bucket) == Some(crate::text::decimal(n)) && n <= usize::MAX
            ==> r.mempool_max_per_bucket == n,
        text_of(vars.mempool_max_age_ms) == Some(crate::text::decimal(n)) && n <= u64::MAX
            ==> r.mempool_max_age_ms == n,
        text_of(vars.mempool_max_per_address) == Some(crate::text::decimal(n)) && n <= usize::MAX
            ==> r.mempool_max_per_address == n,
        r.mode == Mode::Dev && text_of(vars.dev_faucet_amount) == Some(crate::text::decimal(n)) && n
            <= i64::MAX ==> r.faucet_amount == n,
        text_of(r.data_dir) == text_of(vars.data_dir),
{
    lemma_number_read_back(n, u64::MAX as nat);
    lemma_number_read_back(n, u32::MAX as nat);
    lemma_number_read_back(n, u16::MAX as nat);
    lemma_number_read_back(n, usize::MAX as nat);
}

/// A list is read at its commas: a text without any is one part, if something is left
/// once it is trimmed; a comma behind a first part begins the next one.
pub proof fn lemma_list_read(s: Seq<char>, rest: Seq<char>)
    requires
        forall|i: int| 0 <= i < s.len() ==> #[trigger] s[i] != ',',
    ensures
        ({
            let own: Seq<Seq<char>> = if trimmed(s).len() == 0 {
                Seq::empty()
            } else {
                seq![trimmed(s)]
            };
            &&& parts_from(s, 0, 0) == own
            &&& parts_from(s + seq![','] + rest, 0, 0) == own + parts_from(rest, 0, 0)
        }),
{
    lemma_part_end(s, 0, 0);
    let all = s + seq![','] + rest;
    let n = s.len() as int;
    lemma_part_to_comma(all, n, 0);
    assert(all.subrange(0, n) =~= s);
    assert(s.subrange(0, n) =~= s);
    assert(rest =~= all.skip(n + 1));
    lemma_parts_shift(all, n + 1, rest, 0, 0);
}

proof fn lemma_part_end(s: Seq<char>, start: int, i: int)
    requires
        0 <= start <= i <= s.len(),
        forall|k: int| i <= k < s.len() ==> #[trigger] s[k] != ',',
    ensures
        parts_from(s, start, i) == (if trimmed(s.subrange(start, s.len() as int)).len() == 0 {
            Seq::<Seq<char>>::empty()
        } else {
            seq![trimmed(s.subrange(start, s.len() as int))]
        }),
    decreases s.len() - i,
{
    if i < s.len() {
        lemma_part_end(s, start, i + 1);
    }
}

proof fn lemma_part_to_comma(s: Seq<char>, n: int, i: int)
    requires
        0 <= i <= n < s.len(),
        s[n] == ',',
        forall|k: int| i <= k < n ==> #[trigger] s[k] != ',',
    ensures
        parts_from(s, 0, i) == (if trimmed(s.subrange(0, n)).len() == 0 {
            Seq::<Seq<char>>::empty()
        } else {
            seq![trimmed(s.subrange(0, n))]
        }) + parts_from(s, n + 1, n + 1),
    decreases n - i,
{
    if i < n {
        lemma_part_to_comma(s, n, i + 1);
    }
}

proof fn lemma_parts_shift(s: Seq<char>, n: int, rest: Seq<char>, start: int, i: int)
    requires
        0 <= n <= s.len(),
        rest == s.skip(n),
        0 <= start <= i <= rest.len(),
    ensures
        parts_from(s, n + start, n + i) == parts_from(rest, start, i),
    decreases rest.len() - i,
{
    assert(s.subrange(n + start, n + i) =~= rest.subrange(start, i));
    if i < rest.len() {
        assert(rest[i] == s[n + i]);
        lemma_parts_shift(s, n, rest, start, i + 1);
        lemma_parts_shift(s, n, rest, i + 1, i + 1);
    }
}

/// A switch is on exactly for the words `true` and `1`, and the mode and the role are read
/// from their names; what is not known is development, and a validator.
pub proof fn lemma_words_read(var: Option<Seq<char>>)
    ensures
        is_on(var) <==> var == Some("true"@) || var == Some("1"@),
        mode_of(var) == Mode::Mainnet <==> var == Some("mainnet"@) || var == Some("production"@),
        mode_of(var) == Mode::Testnet ==> var == Some("testnet"@) || var == Some("staging"@),
        (var == Some("testnet"@) || var == Some("staging"@)) && !(var == Some("mainnet"@) || var == Some(
            "production"@,
        )) ==> mode_of(var) == Mode::Testnet,
        var is None ==> mode_of(var) == Mode::Dev && role_of(var) == NodeRole::Validator,
        role_of(var) == NodeRole::Rpc <==> var == Some("rpc"@) || var == Some("observer"@),
{
}

/// Switches are read from their own variables.
pub proof fn lemma_switches_read(r: Config, vars: EnvVars)
    requires
        config_of(r, vars),
    ensures
        r.log_all_blocks <==> is_on(text_of(vars.log_blocks)),
        r.oracle_enabled <==> is_on(text_of(vars.oracle_enabled)),
        r.mm_enabled <==> is_on(text_of(vars.mm_enabled)),
        r.mode == Mode::Dev ==> (r.skip_signature_verification <==> is_on(
            text_of(vars.skip_sig_verify),
        )),
        r.mode == Mode::Dev ==> (r.skip_qc_verify <==> is_on(text_of(vars.skip_qc_verify))),
        r.mode == mode_of(text_of(vars.mode)),
        r.node_role == role_of(text_of(vars.node_role)),
        vars.peers is None ==> r.peers@.len() == 0,
        vars.peers matches Some(s) ==> texts_of(r.peers@) == parts_from(s@, 0, 0),
{
    assert(texts_of(r.peers@).len() == r.peers@.len());
}

} // verus!
