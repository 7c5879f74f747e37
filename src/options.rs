//! Start-up settings of the node server, the liveness pinger and the client.
use vstd::prelude::*;

verus! {

/// How a storage node starts: its id (which names its log file), the port it
/// listens on, and the owner it replicates, if any.
pub struct StartKVServerOptions {
    pub node_id: String,
    pub port: String,
    pub leader: Option<String>,
}

/// The peers a node probes with `PING`.
pub struct StartPingOptions {
    pub peers: Vec<String>,
}

/// The port of the node an interactive client talks to.
pub struct StartReplOptions {
    pub kv_port: String,
}

/// The name of the log file of node `node_id`.
pub fn log_file_name(node_id: &String) -> (r: String)
    ensures
        r@ == seq!['l', 'o', 'g', '.'] + node_id@,
{
    proof {
        reveal_strlit("log.");
    }
    let mut name = String::from_str("log.");
    name.append(node_id.as_str());
    name
}

} // verus!
