//! Static cluster configuration: the membership list, protocol timing,
//! storage and logging knobs, and the checks that keep them coherent.
//! Loading the file and reading the environment stay with the host; the
//! values and rules live here.

use vstd::prelude::*;

verus! {

/// Name and version of the cluster as a whole.
#[derive(Debug, Clone)]
pub struct ClusterInfo {
    pub name: String,
    pub version: String,
}

/// Mathematical image of one member's addressing.
#[verifier::ext_equal]
pub struct NodeConfigView {
    pub id: Seq<char>,
    pub host: Seq<char>,
    pub port: u16,
    pub grpc_port: u16,
    pub data_dir: Seq<char>,
}

/// One member of the cluster: a stable id and how to reach it.
#[derive(Debug)]
pub struct NodeConfig {
    pub id: String,
    pub host: String,
    pub port: u16,
    pub grpc_port: u16,
    pub data_dir: String,
}

impl View for NodeConfig {
    type V = NodeConfigView;

    open spec fn view(&self) -> NodeConfigView {
        NodeConfigView {
            id: self.id@,
            host: self.host@,
            port: self.port,
            grpc_port: self.grpc_port,
            data_dir: self.data_dir@,
        }
    }
}

impl DeepView for NodeConfig {
    type V = NodeConfigView;

    open spec fn deep_view(&self) -> NodeConfigView {
        self@
    }
}

impl Clone for NodeConfig {
    fn clone(&self) -> (r: Self)
        ensures
            r@ == self@,
    {
        let r = NodeConfig {
            id: self.id.clone(),
            host: self.host.clone(),
            port: self.port,
            grpc_port: self.grpc_port,
            data_dir: self.data_dir.clone(),
        };
        proof {
            assert(r@ =~= self@);
        }
        r
    }
}

/// Timing of elections, heartbeats and client calls, in milliseconds.
#[derive(Debug, Clone)]
pub struct RaftConfig {
    pub election_timeout_min: u64,
    pub election_timeout_max: u64,
    pub heartbeat_interval: u64,
    pub log_compaction: LogCompactionConfig,
    pub client_timeout: u64,
}

/// When the log should be compacted.
#[derive(Debug, Clone)]
pub struct LogCompactionConfig {
    pub max_log_entries: usize,
    pub snapshot_threshold: usize,
}

/// Durability and log storage settings.
#[derive(Debug, Clone)]
pub struct StorageConfig {
    pub persistence: PersistenceConfig,
    pub log: LogStorageConfig,
}

/// Whether and how state is persisted.
#[derive(Debug, Clone)]
pub struct PersistenceConfig {
    pub enabled: bool,
    pub sync_on_write: bool,
}

/// Size and rotation of stored log files.
#[derive(Debug, Clone)]
pub struct LogStorageConfig {
    pub max_size_mb: usize,
    pub rotation_count: usize,
}

/// Transport timeouts and retry policy, in milliseconds.
#[derive(Debug, Clone)]
pub struct NetworkConfig {
    pub connect_timeout: u64,
    pub read_timeout: u64,
    pub write_timeout: u64,
    pub retry: RetryConfig,
}

/// Bounded retries with a fixed backoff.
#[derive(Debug, Clone)]
pub struct RetryConfig {
    pub max_attempts: usize,
    pub backoff_ms: u64,
}

/// Where and how verbosely to log.
#[derive(Debug, Clone)]
pub struct LoggingConfig {
    pub level: String,
    pub format: String,
    pub output: String,
    pub file: FileLoggingConfig,
}

/// File logging, when enabled.
#[derive(Debug, Clone)]
pub struct FileLoggingConfig {
    pub enabled: bool,
    pub path: String,
    pub max_size_mb: usize,
    pub max_files: usize,
}

/// Timeouts and retry bounds of the peer transport, in milliseconds.
#[derive(Debug, Clone)]
pub struct ClientConfig {
    pub connection_timeout_ms: u64,
    pub request_timeout_ms: u64,
    pub max_retry_count: usize,
    pub retry_interval_ms: u64,
}

impl Default for ClientConfig {
    /// Ten seconds to connect, five per request, three retries spaced
    /// a fifth of a second apart.
    fn default() -> (r: Self)
        ensures
            r.connection_timeout_ms == 10000,
            r.request_timeout_ms == 5000,
            r.max_retry_count == 3,
            r.retry_interval_ms == 200,
    {
        ClientConfig {
            connection_timeout_ms: 10000,
            request_timeout_ms: 5000,
            max_retry_count: 3,
            retry_interval_ms: 200,
        }
    }
}

/// What `validate_config` can find wrong, in the order it looks.
#[derive(Debug)]
pub enum ClusterConfigError {
    /// The member list is empty.
    NoNodes,
    /// Two members share an id.
    DuplicateNodeId,
    /// Two members share a host and port.
    DuplicateAddress,
    /// The election timeout window is empty.
    BadElectionTimeouts,
    /// Heartbeats would not outpace election timeouts.
    BadHeartbeatInterval,
}

/// The whole cluster configuration.
#[derive(Debug, Clone)]
pub struct ClusterConfig {
    pub cluster: ClusterInfo,
    pub nodes: Vec<NodeConfig>,
    pub raft: RaftConfig,
    pub storage: StorageConfig,
    pub network: NetworkConfig,
    pub logging: LoggingConfig,
}

/// The first member carrying the given id, scanning from the front.
pub open spec fn node_with_id(s: Seq<NodeConfigView>, id: Seq<char>) -> Option<NodeConfigView>
    decreases s.len(),
{
    if s.len() == 0 {
        None
    } else if s.first().id == id {
        Some(s.first())
    } else {
        node_with_id(s.drop_first(), id)
    }
}

/// No two members share an id.
pub open spec fn unique_node_ids(s: Seq<NodeConfigView>) -> bool {
    forall|i: int, j: int| 0 <= i < j < s.len() ==> s[i].id != s[j].id
}

/// No two members share a host and port.
pub open spec fn unique_node_addresses(s: Seq<NodeConfigView>) -> bool {
    forall|i: int, j: int|
        0 <= i < j < s.len() ==> !(s[i].host == s[j].host && s[i].port == s[j].port)
}

/// The timing rules a usable configuration obeys.
pub open spec fn timing_ok(r: RaftConfig) -> bool {
    &&& r.election_timeout_min < r.election_timeout_max
    &&& r.heartbeat_interval < r.election_timeout_min
}

/// Loads and checks cluster configurations.  Reading files and the
/// environment is the host's part; checking is here.
#[derive(Debug)]
pub struct ConfigLoader;

impl ConfigLoader {
    /// Rejects a configuration with no members, a repeated id, a
    /// repeated address, or timing that cannot elect a stable leader;
    /// checks run in that order and the first failure is reported.
    pub fn validate_config(config: &ClusterConfig) -> (r: Result<(), ClusterConfigError>)
        ensures
            r is Ok <==> (config.nodes.deep_view().len() > 0 && unique_node_ids(
                config.nodes.deep_view(),
            ) && unique_node_addresses(config.nodes.deep_view()) && timing_ok(config.raft)),
    {
        let n = config.nodes.len();
        if n == 0 {
            return Err(ClusterConfigError::NoNodes);
        }
        let mut i: usize = 0;
        while i < n
            invariant
                i <= n,
                n == config.nodes@.len(),
                forall|a: int, b: int|
                    0 <= a < b < n && a < i ==> (#[trigger] config.nodes.deep_view()[a]).id != (
                    #[trigger] config.nodes.deep_view()[b]).id,
            decreases n - i,
        {
            let mut j: usize = i + 1;
            while j < n
                invariant
                    i < j <= n,
                    n == config.nodes@.len(),
                    forall|b: int|
                        i < b < j ==> (#[trigger] config.nodes.deep_view()[b]).id
                            != config.nodes.deep_view()[i as int].id,
                decreases n - j,
            {
                if config.nodes[i].id == config.nodes[j].id {
                    proof {
                        assert(config.nodes.deep_view()[i as int].id == config.nodes.deep_view()[
                        j as int].id);
                    }
                    return Err(ClusterConfigError::DuplicateNodeId);
                }
                proof {
                    assert(config.nodes.deep_view()[j as int] == config.nodes@[j as int]@);
                }
                j += 1;
            }
            i += 1;
        }
        let mut i: usize = 0;
        while i < n
            invariant
                i <= n,
                n == config.nodes@.len(),
                unique_node_ids(config.nodes.deep_view()),
                forall|a: int, b: int|
                    0 <= a < b < n && a < i ==> !((#[trigger] config.nodes.deep_view()[a]).host
                        == (#[trigger] config.nodes.deep_view()[b]).host
                        && config.nodes.deep_view()[a].port == config.nodes.deep_view()[b].port),
            decreases n - i,
        {
            let mut j: usize = i + 1;
            while j < n
                invariant
                    i < j <= n,
                    n == config.nodes@.len(),
                    unique_node_ids(config.nodes.deep_view()),
                    forall|b: int|
                        i < b < j ==> !((#[trigger] config.nodes.deep_view()[b]).host
                            == config.nodes.deep_view()[i as int].host
                            && config.nodes.deep_view()[b].port == config.nodes.deep_view()[
                        i as int].port),
                decreases n - j,
            {
                if config.nodes[i].host == config.nodes[j].host && config.nodes[i].port
                    == config.nodes[j].port {
                    proof {
                        assert(config.nodes.deep_view()[i as int].host == config.nodes.deep_view()[
                        j as int].host);
                    }
                    return Err(ClusterConfigError::DuplicateAddress);
                }
                proof {
                    assert(config.nodes.deep_view()[j as int] == config.nodes@[j as int]@);
                }
                j += 1;
            }
            i += 1;
        }
        if config.raft.election_timeout_min >= config.raft.election_timeout_max {
            return Err(ClusterConfigError::BadElectionTimeouts);
        }
        if config.raft.heartbeat_interval >= config.raft.election_timeout_min {
            return Err(ClusterConfigError::BadHeartbeatInterval);
        }
        Ok(())
    }
}

/// The decimal digits of a number, most significant first.
pub open spec fn dec_str(n: nat) -> Seq<char>
    decreases n,
{
    if n < 10 {
        seq![dec_digit(n)]
    } else {
        dec_str(n / 10).push(dec_digit(n % 10))
    }
}

/// The character for one decimal digit.
pub open spec fn dec_digit(n: nat) -> char {
    if n == 0 {
        '0'
    } else if n == 1 {
        '1'
    } else if n == 2 {
        '2'
    } else if n == 3 {
        '3'
    } else if n == 4 {
        '4'
    } else if n == 5 {
        '5'
    } else if n == 6 {
        '6'
    } else if n == 7 {
        '7'
    } else if n == 8 {
        '8'
    } else {
        '9'
    }
}

/// The address the transport dials for a member's consensus endpoint.
pub open spec fn spec_grpc_address(host: Seq<char>, port: u16) -> Seq<char> {
    "http://"@ + host + ":"@ + dec_str(port as nat)
}

/// Relies on format!, that is, on u16's Display: the port renders as
/// plain decimal digits with nothing around them.
#[verifier::external_body]
fn grpc_address(host: &String, port: u16) -> (r: String)
    ensures
        r@ == spec_grpc_address(host@, port),
{
    format!("http://{}:{}", host, port)
}

impl ClusterConfig {
    /// The member with this id, where one is.
    pub fn get_node_config(&self, node_id: &String) -> (r: Option<&NodeConfig>)
        ensures
            match r {
                Some(c) => node_with_id(self.nodes.deep_view(), node_id@) == Some(c@),
                None => node_with_id(self.nodes.deep_view(), node_id@) is None,
            },
    {
        let n = self.nodes.len();
        let mut i: usize = 0;
        proof {
            assert(self.nodes.deep_view().skip(0) =~= self.nodes.deep_view());
        }
        while i < n
            invariant
                i <= n,
                n == self.nodes@.len(),
                node_with_id(self.nodes.deep_view(), node_id@) == node_with_id(
                    self.nodes.deep_view().skip(i as int),
                    node_id@,
                ),
            decreases n - i,
        {
            proof {
                assert(self.nodes.deep_view().skip(i as int).first() == self.nodes@[i as int]@);
                assert(self.nodes.deep_view().skip(i as int).drop_first()
                    =~= self.nodes.deep_view().skip(i + 1));
            }
            if self.nodes[i].id == *node_id {
                return Some(&self.nodes[i]);
            }
            i += 1;
        }
        None
    }

    /// Every member but the named one, in order.
    pub fn get_peer_nodes(&self, current_node_id: &String) -> (r: Vec<NodeConfig>)
        ensures
            r.deep_view() == self.nodes.deep_view().filter(
                |c: NodeConfigView| c.id != current_node_id@,
            ),
    {
        let mut out: Vec<NodeConfig> = Vec::new();
        let n = self.nodes.len();
        let mut i: usize = 0;
        while i < n
            invariant
                i <= n,
                n == self.nodes@.len(),
                out.deep_view() == self.nodes.deep_view().take(i as int).filter(
                    |c: NodeConfigView| c.id != current_node_id@,
                ),
            decreases n - i,
        {
            proof {
                reveal(Seq::filter);
                assert(self.nodes.deep_view().take(i + 1).drop_last()
                    =~= self.nodes.deep_view().take(i as int));
                assert(self.nodes.deep_view().take(i + 1).last() == self.nodes@[i as int]@);
            }
            if !(self.nodes[i].id == *current_node_id) {
                let ghost prev = out.deep_view();
                out.push(self.nodes[i].clone());
                proof {
                    assert(out.deep_view() =~= prev.push(self.nodes@[i as int]@));
                }
            }
            i += 1;
        }
        proof {
            assert(self.nodes.deep_view().take(n as int) =~= self.nodes.deep_view());
        }
        out
    }

    /// The consensus endpoint of every member, in order.
    pub fn get_all_grpc_addresses(&self) -> (r: Vec<String>)
        ensures
            r.deep_view().len() == self.nodes.deep_view().len(),
            forall|i: int|
                0 <= i < r.deep_view().len() ==> r.deep_view()[i] == spec_grpc_address(
                    (#[trigger] self.nodes.deep_view()[i]).host,
                    self.nodes.deep_view()[i].grpc_port,
                ),
    {
        let mut out: Vec<String> = Vec::new();
        let n = self.nodes.len();
        let mut i: usize = 0;
        while i < n
            invariant
                i <= n,
                n == self.nodes@.len(),
                out.deep_view().len() == i,
                forall|j: int|
                    0 <= j < i ==> out.deep_view()[j] == spec_grpc_address(
                        (#[trigger] self.nodes.deep_view()[j]).host,
                        self.nodes.deep_view()[j].grpc_port,
                    ),
            decreases n - i,
        {
            let ghost prev = out.deep_view();
            out.push(grpc_address(&self.nodes[i].host, self.nodes[i].grpc_port));
            proof {
                assert(out.deep_view() =~= prev.push(
                    spec_grpc_address(self.nodes@[i as int]@.host, self.nodes@[i as int]@.grpc_port),
                ));
            }
            i += 1;
        }
        out
    }

    /// The consensus endpoint of every member but the named one.
    pub fn get_peer_grpc_addresses(&self, current_node_id: &String) -> (r: Vec<String>)
        ensures
            ({
                let peers = self.nodes.deep_view().filter(
                    |c: NodeConfigView| c.id != current_node_id@,
                );
                &&& r.deep_view().len() == peers.len()
                &&& forall|i: int|
                    0 <= i < peers.len() ==> r.deep_view()[i] == spec_grpc_address(
                        (#[trigger] peers[i]).host,
                        peers[i].grpc_port,
                    )
            }),
    {
        let peers = self.get_peer_nodes(current_node_id);
        let mut out: Vec<String> = Vec::new();
        let n = peers.len();
        let mut i: usize = 0;
        while i < n
            invariant
                i <= n,
                n == peers@.len(),
                out.deep_view().len() == i,
                forall|j: int|
                    0 <= j < i ==> out.deep_view()[j] == spec_grpc_address(
                        (#[trigger] peers.deep_view()[j]).host,
                        peers.deep_view()[j].grpc_port,
                    ),
            decreases n - i,
        {
            let ghost prev = out.deep_view();
            out.push(grpc_address(&peers[i].host, peers[i].grpc_port));
            proof {
                assert(out.deep_view() =~= prev.push(
                    spec_grpc_address(peers@[i as int]@.host, peers@[i as int]@.grpc_port),
                ));
            }
            i += 1;
        }
        out
    }
}

} // verus!
