//! The `run` command's options and their interpretation: role selection,
//! node naming, RPC/telemetry/metrics configuration.  Socket addresses are
//! represented as an interface string and a port; turning them into bound
//! sockets is the caller's concern.

use vstd::prelude::*;
use vstd::string::StrSliceExecFns;
use vstd::string::StringExecFns;

verus! {

/// Longest accepted node name, in characters.
pub const NODE_NAME_MAX_LENGTH: usize = 32;

/// An input the command cannot accept.
#[derive(Clone, Debug)]
pub enum Error {
    /// The input named in the message is invalid.
    Input(String),
}

/// Whether a regular expression matches anywhere in a text.  A pattern that
/// does not compile matches nothing.
pub uninterp spec fn regex_matches(pattern: Seq<char>, text: Seq<char>) -> bool;

/// Relies on regex::Regex::new and regex::Regex::is_match: whether the
/// pattern matches anywhere in the text.  The result depends on the pattern
/// and the text alone.
#[verifier::external_body]
fn regex_is_match(pattern: &str, text: &str) -> (r: bool)
    ensures
        r == regex_matches(pattern@, text@),
{
    regex::Regex::new(pattern).map(|re| re.is_match(text)).unwrap_or(false)
}

/// A node name is valid when it is shorter than [`NODE_NAME_MAX_LENGTH`]
/// characters, contains none of the characters matched by the invalid-chars
/// pattern, and contains no URL-like fragment.
pub open spec fn spec_node_name_valid(name: Seq<char>) -> bool {
    &&& name.len() < NODE_NAME_MAX_LENGTH
    &&& !regex_matches("[\\\\.@]"@, name)
    &&& !regex_matches("(https?:\\\\/+)?(www)+"@, name)
}

/// Check whether a node name is considered as valid.
pub fn is_node_name_valid(_name: &str) -> (r: Result<(), &'static str>)
    ensures
        r is Ok <==> spec_node_name_valid(_name@),
        _name@.len() >= NODE_NAME_MAX_LENGTH ==> r == Err::<(), &'static str>(
            "Node name too long",
        ),
        _name@.len() < NODE_NAME_MAX_LENGTH && regex_matches("[\\\\.@]"@, _name@) ==> r == Err::<
            (),
            &'static str,
        >("Node name should not contain invalid chars such as '.' and '@'"),
        _name@.len() < NODE_NAME_MAX_LENGTH && !regex_matches("[\\\\.@]"@, _name@)
            && regex_matches("(https?:\\\\/+)?(www)+"@, _name@) ==> r == Err::<
            (),
            &'static str,
        >("Node name should not contain urls"),
{
    if _name.unicode_len() >= NODE_NAME_MAX_LENGTH {
        return Err("Node name too long");
    }
    let invalid_chars = "[\\\\.@]";
    if regex_is_match(invalid_chars, _name) {
        return Err("Node name should not contain invalid chars such as '.' and '@'");
    }
    let invalid_patterns = "(https?:\\\\/+)?(www)+";
    if regex_is_match(invalid_patterns, _name) {
        return Err("Node name should not contain urls");
    }
    Ok(())
}

/// The development keyrings a node can impersonate with one flag.
#[derive(Clone, Copy, PartialEq, Eq, Structural, Debug)]
pub enum Keyring {
    /// The Alice development identity.
    Alice,
    /// The Bob development identity.
    Bob,
    /// The Charlie development identity.
    Charlie,
    /// The Dave development identity.
    Dave,
    /// The Eve development identity.
    Eve,
    /// The Ferdie development identity.
    Ferdie,
    /// The One development identity.
    One,
    /// The Two development identity.
    Two,
}

/// The role the node plays in the network.
#[derive(Clone, Copy, PartialEq, Eq, Structural, Debug)]
pub enum Roles {
    /// A light client.
    Light,
    /// An authoring, consensus-participating node.
    Authority,
    /// A full node.
    Full,
}

/// Whether off-chain workers are enabled.
#[derive(Clone, Copy, PartialEq, Eq, Structural, Debug)]
pub enum OffchainWorkerEnabled {
    /// Run them on every block.
    Always,
    /// Never run them.
    Never,
    /// Run them only while the node validates.
    WhenValidating,
}

/// CORS setting.
///
/// The type is introduced to overcome `Option<Option<T>>` handling of
/// command-line parsing.
#[derive(Clone, Debug)]
pub enum Cors {
    /// All hosts allowed.
    All,
    /// Only hosts on the list are allowed.
    List(Vec<String>),
}

impl Cors {
    /// The plain form consumed by the RPC server: `None` disables origin
    /// validation, `Some` restricts to the listed origins.
    pub fn into_option(self) -> (r: Option<Vec<String>>)
        ensures
            self is All <==> r is None,
            forall|l: Vec<String>| self == Cors::List(l) ==> r == Some(l),
    {
        match self {
            Cors::All => None,
            Cors::List(list) => Some(list),
        }
    }
}

/// The options every command shares.
#[derive(Clone, Copy, PartialEq, Eq, Structural, Debug)]
pub struct SharedParams {
    /// Run a temporary development node.
    pub dev: bool,
}

/// The `run` command used to run a node.
pub struct RunCmd {
    /// Enable validator mode.
    pub validator: bool,
    /// Enable sentry mode.
    pub sentry: bool,
    /// Disable the GRANDPA voter, or observer when not validating.
    pub no_grandpa: bool,
    /// Run in light client mode.
    pub light: bool,
    /// Listen to all RPC interfaces.
    pub rpc_external: bool,
    /// Listen to all RPC interfaces without the safety warning.
    pub unsafe_rpc_external: bool,
    /// Listen to all Websocket interfaces.
    pub ws_external: bool,
    /// Listen to all Websocket interfaces without the safety warning.
    pub unsafe_ws_external: bool,
    /// Listen to all Prometheus data source interfaces.
    pub prometheus_external: bool,
    /// HTTP RPC server TCP port.
    pub rpc_port: Option<u16>,
    /// WebSockets RPC server TCP port.
    pub ws_port: Option<u16>,
    /// Maximum number of WS RPC server connections.
    pub ws_max_connections: Option<usize>,
    /// Browser origins allowed to access the HTTP and WS RPC servers.
    pub rpc_cors: Option<Cors>,
    /// Prometheus data source server TCP port.
    pub prometheus_port: Option<u16>,
    /// Do not expose a Prometheus metric endpoint.
    pub no_prometheus: bool,
    /// The human-readable name for this node.
    pub name: Option<String>,
    /// Disable connecting to the telemetry server.
    pub no_telemetry: bool,
    /// Telemetry server URLs with their verbosity levels.
    pub telemetry_endpoints: Vec<(String, u8)>,
    /// When to execute off-chain workers.
    pub offchain_worker: OffchainWorkerEnabled,
    /// The options every command shares.
    pub shared_params: SharedParams,
    /// Shortcut for `--name Alice --validator`.
    pub alice: bool,
    /// Shortcut for `--name Bob --validator`.
    pub bob: bool,
    /// Shortcut for `--name Charlie --validator`.
    pub charlie: bool,
    /// Shortcut for `--name Dave --validator`.
    pub dave: bool,
    /// Shortcut for `--name Eve --validator`.
    pub eve: bool,
    /// Shortcut for `--name Ferdie --validator`.
    pub ferdie: bool,
    /// Shortcut for `--name One --validator`.
    pub one: bool,
    /// Shortcut for `--name Two --validator`.
    pub two: bool,
    /// Enable authoring even when offline.
    pub force_authoring: bool,
}

/// Copy a list of origin strings.
fn clone_string_list(v: &Vec<String>) -> (r: Vec<String>)
    ensures
        r.deep_view() == v.deep_view(),
{
    let mut r: Vec<String> = Vec::new();
    let mut i: usize = 0;
    while i < v.len()
        invariant
            i <= v@.len(),
            r@.len() == i,
            forall|m: int| 0 <= m < i ==> (#[trigger] r@[m])@ == v@[m]@,
        decreases v@.len() - i,
    {
        r.push(v[i].clone());
        i = i + 1;
    }
    proof {
        assert(r.deep_view() =~= v.deep_view());
    }
    r
}

/// Copy a list of telemetry endpoints.
fn clone_endpoint_list(v: &Vec<(String, u8)>) -> (r: Vec<(String, u8)>)
    ensures
        r@.len() == v@.len(),
        forall|m: int|
            0 <= m < v@.len() ==> (#[trigger] r@[m]).0@ == v@[m].0@ && r@[m].1 == v@[m].1,
{
    let mut r: Vec<(String, u8)> = Vec::new();
    let mut i: usize = 0;
    while i < v.len()
        invariant
            i <= v@.len(),
            r@.len() == i,
            forall|m: int|
                0 <= m < i ==> (#[trigger] r@[m]).0@ == v@[m].0@ && r@[m].1 == v@[m].1,
        decreases v@.len() - i,
    {
        let p = &v[i];
        r.push((p.0.clone(), p.1));
        i = i + 1;
    }
    r
}

/// The keyring selected by a run command's shortcut flags, first flag wins.
pub open spec fn spec_keyring(c: RunCmd) -> Option<Keyring> {
    if c.alice {
        Some(Keyring::Alice)
    } else if c.bob {
        Some(Keyring::Bob)
    } else if c.charlie {
        Some(Keyring::Charlie)
    } else if c.dave {
        Some(Keyring::Dave)
    } else if c.eve {
        Some(Keyring::Eve)
    } else if c.ferdie {
        Some(Keyring::Ferdie)
    } else if c.one {
        Some(Keyring::One)
    } else if c.two {
        Some(Keyring::Two)
    } else {
        None
    }
}

/// The display name of a keyring identity.
pub open spec fn spec_keyring_name(k: Keyring) -> Seq<char> {
    match k {
        Keyring::Alice => "Alice"@,
        Keyring::Bob => "Bob"@,
        Keyring::Charlie => "Charlie"@,
        Keyring::Dave => "Dave"@,
        Keyring::Eve => "Eve"@,
        Keyring::Ferdie => "Ferdie"@,
        Keyring::One => "One"@,
        Keyring::Two => "Two"@,
    }
}

impl Keyring {
    /// The display name of the identity.
    pub fn name(&self) -> (r: &'static str)
        ensures
            r@ == spec_keyring_name(*self),
    {
        match self {
            Keyring::Alice => "Alice",
            Keyring::Bob => "Bob",
            Keyring::Charlie => "Charlie",
            Keyring::Dave => "Dave",
            Keyring::Eve => "Eve",
            Keyring::Ferdie => "Ferdie",
            Keyring::One => "One",
            Keyring::Two => "Two",
        }
    }

    /// The secret key URI of the identity.
    pub fn seed(&self) -> (r: &'static str)
        ensures
            r@ == "//"@ + spec_keyring_name(*self),
    {
        let r = match self {
            Keyring::Alice => "//Alice",
            Keyring::Bob => "//Bob",
            Keyring::Charlie => "//Charlie",
            Keyring::Dave => "//Dave",
            Keyring::Eve => "//Eve",
            Keyring::Ferdie => "//Ferdie",
            Keyring::One => "//One",
            Keyring::Two => "//Two",
        };
        proof {
            reveal_strlit("//");
            reveal_strlit("//Alice");
            reveal_strlit("Alice");
            reveal_strlit("//Bob");
            reveal_strlit("Bob");
            reveal_strlit("//Charlie");
            reveal_strlit("Charlie");
            reveal_strlit("//Dave");
            reveal_strlit("Dave");
            reveal_strlit("//Eve");
            reveal_strlit("Eve");
            reveal_strlit("//Ferdie");
            reveal_strlit("Ferdie");
            reveal_strlit("//One");
            reveal_strlit("One");
            reveal_strlit("//Two");
            reveal_strlit("Two");
            assert(r@ =~= "//"@ + spec_keyring_name(*self));
        }
        r
    }
}

impl RunCmd {
    /// The keyring matching one of the shortcut flags, if any.
    pub fn get_keyring(&self) -> (r: Option<Keyring>)
        ensures
            r == spec_keyring(*self),
    {
        if self.alice {
            Some(Keyring::Alice)
        } else if self.bob {
            Some(Keyring::Bob)
        } else if self.charlie {
            Some(Keyring::Charlie)
        } else if self.dave {
            Some(Keyring::Dave)
        } else if self.eve {
            Some(Keyring::Eve)
        } else if self.ferdie {
            Some(Keyring::Ferdie)
        } else if self.one {
            Some(Keyring::One)
        } else if self.two {
            Some(Keyring::Two)
        } else {
            None
        }
    }

    /// The name this node runs under: the explicit `--name`, else the
    /// selected keyring's name, else the caller-generated fallback; the
    /// chosen name must be valid.
    pub fn get_node_name(&self, generated: &str) -> (r: Result<String, Error>)
        ensures
            ({
                let chosen = if self.name is Some {
                    self.name->0@
                } else if spec_keyring(*self) is Some {
                    spec_keyring_name(spec_keyring(*self)->0)
                } else {
                    generated@
                };
                &&& r is Ok <==> spec_node_name_valid(chosen)
                &&& (r matches Ok(nm) ==> nm@ == chosen)
            }),
    {
        let name: String = match (&self.name, self.get_keyring()) {
            (Some(name), _) => name.clone(),
            (None, Some(keyring)) => String::from_str(keyring.name()),
            (None, None) => String::from_str(generated),
        };
        if let Err(msg) = is_node_name_valid(name.as_str()) {
            let mut full = String::from_str("Invalid node name '");
            full.append(name.as_str());
            full.append("'. Reason: ");
            full.append(msg);
            full.append(". If unsure, use none.");
            return Err(Error::Input(full));
        }
        Ok(name)
    }

    /// The development key seed: the keyring's seed if a shortcut flag is
    /// set, else Alice's seed on a non-light development node.
    pub fn get_dev_key_seed(&self, is_dev: bool) -> (r: Option<String>)
        ensures
            spec_keyring(*self) matches Some(k) ==> (r matches Some(s) && s@ == "//"@
                + spec_keyring_name(k)),
            spec_keyring(*self) is None && is_dev && !self.light ==> (r matches Some(s) && s@
                == "//Alice"@),
            spec_keyring(*self) is None && !(is_dev && !self.light) ==> r is None,
    {
        match self.get_keyring() {
            Some(k) => Some(String::from_str(k.seed())),
            None => {
                if is_dev && !self.light {
                    proof {
                        reveal_strlit("//Alice");
                    }
                    Some(String::from_str("//Alice"))
                } else {
                    None
                }
            },
        }
    }

    /// The telemetry endpoints to report to: none when telemetry is off, the
    /// explicitly given ones when any, else the chain specification's.
    pub fn get_telemetry_endpoints(&self, chain_spec_endpoints: Option<Vec<(String, u8)>>) -> (r:
        Option<Vec<(String, u8)>>)
        ensures
            self.no_telemetry ==> r is None,
            !self.no_telemetry && self.telemetry_endpoints@.len() > 0 ==> (r matches Some(v)
                && v@.len() == self.telemetry_endpoints@.len() && (forall|m: int|
                0 <= m < v@.len() ==> (#[trigger] v@[m]).0@ == self.telemetry_endpoints@[m].0@
                    && v@[m].1 == self.telemetry_endpoints@[m].1)),
            !self.no_telemetry && self.telemetry_endpoints@.len() == 0 ==> r
                == chain_spec_endpoints,
    {
        if self.no_telemetry {
            None
        } else if self.telemetry_endpoints.len() > 0 {
            Some(clone_endpoint_list(&self.telemetry_endpoints))
        } else {
            chain_spec_endpoints
        }
    }

    /// Whether the node runs as a sentry.
    pub fn get_sentry_mode(&self) -> (r: bool)
        ensures
            r == self.sentry,
    {
        self.sentry
    }

    /// The node's role: light wins, then authority if the node validates,
    /// acts as sentry, runs in development mode or impersonates a keyring.
    pub fn get_roles(&self, is_dev: bool) -> (r: Roles)
        ensures
            self.light ==> r == Roles::Light,
            !self.light && (self.validator || self.sentry || is_dev || spec_keyring(
                *self,
            ) is Some) ==> r == Roles::Authority,
            !self.light && !(self.validator || self.sentry || is_dev || spec_keyring(
                *self,
            ) is Some) ==> r == Roles::Full,
    {
        let keyring = self.get_keyring();
        let is_light = self.light;
        let is_authority = (self.validator || self.sentry || is_dev || keyring.is_some())
            && !is_light;
        if is_light {
            Roles::Light
        } else if is_authority {
            Roles::Authority
        } else {
            Roles::Full
        }
    }

    /// Whether to author blocks even when offline; development mode implies
    /// it.
    pub fn get_force_authoring(&self) -> (r: bool)
        ensures
            r == (self.shared_params.dev || self.force_authoring),
    {
        self.shared_params.dev || self.force_authoring
    }

    /// The interface and port of the Prometheus endpoint, or `None` when
    /// metrics are disabled.  The default port applies unless one was given.
    pub fn get_prometheus_port(&self) -> (r: Option<(&'static str, u16)>)
        ensures
            self.no_prometheus ==> r is None,
            !self.no_prometheus && self.prometheus_external ==> (r matches Some(a) && a.0@
                == "0.0.0.0"@ && a.1 == self.prometheus_port.unwrap_or(9615)),
            !self.no_prometheus && !self.prometheus_external ==> (r matches Some(a) && a.0@
                == "127.0.0.1"@ && a.1 == self.prometheus_port.unwrap_or(9615)),
    {
        if self.no_prometheus {
            None
        } else {
            let prometheus_interface: &'static str = if self.prometheus_external {
                "0.0.0.0"
            } else {
                "127.0.0.1"
            };
            let port = match self.prometheus_port {
                Some(p) => p,
                None => 9615,
            };
            Some((prometheus_interface, port))
        }
    }

    /// Whether the GRANDPA voter or observer is disabled.
    pub fn get_disable_grandpa(&self) -> (r: bool)
        ensures
            r == self.no_grandpa,
    {
        self.no_grandpa
    }

    /// The maximum number of WS RPC connections, if limited.
    pub fn get_rpc_ws_max_connections(&self) -> (r: Option<usize>)
        ensures
            r == self.ws_max_connections,
    {
        self.ws_max_connections
    }

    /// The allowed RPC origins: the explicit setting if any; otherwise all
    /// origins in development mode, else the default origin list.
    pub fn get_rpc_cors(&self, is_dev: bool) -> (r: Option<Vec<String>>)
        ensures
            self.rpc_cors matches Some(c) ==> (c is All <==> r is None),
            forall|l: Vec<String>|
                self.rpc_cors == Some(Cors::List(l)) ==> (r matches Some(v) && v.deep_view()
                    == l.deep_view()),
            self.rpc_cors is None && is_dev ==> r is None,
            self.rpc_cors is None && !is_dev ==> (r matches Some(l) && l.deep_view() =~= seq![
                "http://localhost:*"@,
                "http://127.0.0.1:*"@,
                "https://localhost:*"@,
                "https://127.0.0.1:*"@,
                "https://polkadot.js.org"@,
                "https://substrate-ui.parity.io"@,
            ]),
    {
        let cors: Cors = match &self.rpc_cors {
            Some(Cors::All) => Cors::All,
            Some(Cors::List(l)) => Cors::List(clone_string_list(l)),
            None => {
                if is_dev {
                    Cors::All
                } else {
                    let mut list: Vec<String> = Vec::new();
                    list.push(String::from_str("http://localhost:*"));
                    list.push(String::from_str("http://127.0.0.1:*"));
                    list.push(String::from_str("https://localhost:*"));
                    list.push(String::from_str("https://127.0.0.1:*"));
                    list.push(String::from_str("https://polkadot.js.org"));
                    list.push(String::from_str("https://substrate-ui.parity.io"));
                    proof {
                        assert(list.deep_view() =~= seq![
                            "http://localhost:*"@,
                            "http://127.0.0.1:*"@,
                            "https://localhost:*"@,
                            "https://127.0.0.1:*"@,
                            "https://polkadot.js.org"@,
                            "https://substrate-ui.parity.io"@,
                        ]);
                    }
                    Cors::List(list)
                }
            },
        };
        cors.into_option()
    }

    /// The interface and port for the HTTP RPC server.
    pub fn get_rpc_http(&self) -> (r: Result<Option<(&'static str, u16)>, Error>)
        ensures
            self.rpc_external && self.validator ==> r is Err,
            !(self.rpc_external && self.validator) ==> (r matches Ok(Some(a)) && a.1
                == self.rpc_port.unwrap_or(9933) && (((self.rpc_external
                || self.unsafe_rpc_external) ==> a.0@ == "0.0.0.0"@) && (!(self.rpc_external
                || self.unsafe_rpc_external) ==> a.0@ == "127.0.0.1"@))),
    {
        let rpc_interface: &'static str = match interface_str(
            self.rpc_external,
            self.unsafe_rpc_external,
            self.validator,
        ) {
            Err(e) => {
                return Err(e);
            },
            Ok(s) => s,
        };
        let port = match self.rpc_port {
            Some(p) => p,
            None => 9933,
        };
        Ok(Some((rpc_interface, port)))
    }

    /// The interface and port for the WebSockets RPC server.
    pub fn get_rpc_ws(&self) -> (r: Result<Option<(&'static str, u16)>, Error>)
        ensures
            self.ws_external && self.validator ==> r is Err,
            !(self.ws_external && self.validator) ==> (r matches Ok(Some(a)) && a.1
                == self.ws_port.unwrap_or(9944) && (((self.ws_external || self.unsafe_ws_external)
                ==> a.0@ == "0.0.0.0"@) && (!(self.ws_external || self.unsafe_ws_external) ==> a.0@
                == "127.0.0.1"@))),
    {
        let ws_interface: &'static str = match interface_str(
            self.ws_external,
            self.unsafe_ws_external,
            self.validator,
        ) {
            Err(e) => {
                return Err(e);
            },
            Ok(s) => s,
        };
        let port = match self.ws_port {
            Some(p) => p,
            None => 9944,
        };
        Ok(Some((ws_interface, port)))
    }

    /// Whether off-chain workers should run, given the node's role.
    pub fn get_offchain_worker(&self, roles: Roles) -> (r: bool)
        ensures
            r == (self.offchain_worker is Always || (self.offchain_worker is WhenValidating
                && roles is Authority)),
    {
        match (&self.offchain_worker, roles) {
            (OffchainWorkerEnabled::WhenValidating, Roles::Authority) => true,
            (OffchainWorkerEnabled::Always, _) => true,
            (OffchainWorkerEnabled::Never, _) => false,
            (OffchainWorkerEnabled::WhenValidating, _) => false,
        }
    }
}

/// The index of the first occurrence of `c`, or the length when absent.
pub open spec fn first_char_at(s: Seq<char>, c: char) -> int
    decreases s.len(),
{
    if s.len() == 0 {
        0
    } else if s[0] == c {
        0
    } else {
        1 + first_char_at(s.drop_first(), c)
    }
}

/// What the first occurrence index satisfies.
pub proof fn lemma_first_char_at(s: Seq<char>, c: char)
    ensures
        0 <= first_char_at(s, c) <= s.len(),
        forall|m: int| 0 <= m < first_char_at(s, c) ==> s[m] != c,
        first_char_at(s, c) < s.len() ==> s[first_char_at(s, c)] == c,
    decreases s.len(),
{
    if s.len() > 0 && s[0] != c {
        lemma_first_char_at(s.drop_first(), c);
        assert forall|m: int| 0 <= m < first_char_at(s, c) implies s[m] != c by {
            if m > 0 {
                assert(s.drop_first()[m - 1] == s[m]);
            }
        }
        if first_char_at(s, c) < s.len() {
            assert(s.drop_first()[first_char_at(s, c) - 1] == s[first_char_at(s, c)]);
        }
    }
}

/// A scan that found `c` first at `i` agrees with the specification.
pub proof fn lemma_first_char_at_is(s: Seq<char>, c: char, i: int)
    requires
        0 <= i <= s.len(),
        forall|m: int| 0 <= m < i ==> s[m] != c,
        i < s.len() ==> s[i] == c,
    ensures
        first_char_at(s, c) == i,
{
    lemma_first_char_at(s, c);
    let f = first_char_at(s, c);
    if f < i {
        assert(s[f] == c);
        assert(false);
    }
    if i < f {
        assert(s[i] != c);
        assert(false);
    }
}

/// A decimal digit.
pub open spec fn is_dec_digit(c: char) -> bool {
    '0' <= c && c <= '9'
}

/// The number written by a sequence of decimal digits, most significant
/// first.
pub open spec fn digits_value(s: Seq<char>) -> int
    decreases s.len(),
{
    if s.len() == 0 {
        0
    } else {
        digits_value(s.drop_last()) * 10 + (s.last() as int - '0' as int)
    }
}

/// A verbosity level: a non-empty run of decimal digits whose value fits in
/// a byte, after an optional leading plus sign.
pub open spec fn spec_verbosity_digits(s: Seq<char>) -> Seq<char> {
    if s.len() > 0 && s[0] == '+' {
        s.drop_first()
    } else {
        s
    }
}

/// The digits form a valid byte value.
pub open spec fn valid_u8_digits(s: Seq<char>) -> bool {
    &&& s.len() > 0
    &&& forall|m: int| 0 <= m < s.len() ==> is_dec_digit(#[trigger] s[m])
    &&& digits_value(s) <= 255
}

/// Parse a decimal byte value, accepting one leading plus sign.
fn parse_u8(s: &str) -> (r: Result<u8, Error>)
    ensures
        r is Ok <==> valid_u8_digits(spec_verbosity_digits(s@)),
        r matches Ok(v) ==> v == digits_value(spec_verbosity_digits(s@)),
{
    let n = s.unicode_len();
    let start: usize = if n > 0 && s.get_char(0) == '+' {
        1
    } else {
        0
    };
    let ghost digits = spec_verbosity_digits(s@);
    proof {
        assert(digits =~= s@.subrange(start as int, n as int));
    }
    if n == start {
        return Err(Error::Input(String::from_str("empty verbosity")));
    }
    let mut acc: u32 = 0;
    let mut i: usize = start;
    while i < n
        invariant
            start <= i <= n,
            n == s@.len(),
            digits == spec_verbosity_digits(s@),
            digits == s@.subrange(start as int, n as int),
            forall|m: int| start <= m < i ==> is_dec_digit(#[trigger] s@[m]),
            0 <= digits_value(s@.subrange(start as int, i as int)),
            digits_value(s@.subrange(start as int, i as int)) <= 255 ==> acc == digits_value(
                s@.subrange(start as int, i as int),
            ),
            digits_value(s@.subrange(start as int, i as int)) > 255 ==> 255 < acc,
            acc <= 2559,
        decreases n - i,
    {
        let c = s.get_char(i);
        if !(c >= '0' && c <= '9') {
            proof {
                assert(!valid_u8_digits(digits)) by {
                    assert(digits.len() == n - start);
                    assert(digits[i - start] == s@[i as int]);
                    assert(!is_dec_digit(digits[i - start]));
                }
            }
            return Err(Error::Input(String::from_str("invalid verbosity digit")));
        }
        let d: u32 = (c as u32) - 48;
        proof {
            let pref = s@.subrange(start as int, i as int);
            let pref2 = s@.subrange(start as int, i as int + 1);
            assert(pref2.drop_last() =~= pref);
            assert(pref2.last() == s@[i as int]);
            assert(digits_value(pref2) == digits_value(pref) * 10 + (c as int - '0' as int));
        }
        acc = if acc > 255 {
            256
        } else {
            acc * 10 + d
        };
        i = i + 1;
    }
    proof {
        assert(s@.subrange(start as int, n as int) == digits);
    }
    if acc > 255 {
        return Err(Error::Input(String::from_str("verbosity out of range")));
    }
    Ok(acc as u8)
}

/// Split an endpoint argument into its URL and verbosity: everything before
/// the first space is the URL; the rest, when present, must be a verbosity
/// level, and verbosity 0 applies when none is given.
pub fn parse_telemetry_endpoints(s: &str) -> (r: Result<(String, u8), Error>)
    ensures
        first_char_at(s@, ' ') == s@.len() ==> (r matches Ok(p) && p.0@ == s@ && p.1 == 0),
        first_char_at(s@, ' ') < s@.len() ==> {
            let pos = first_char_at(s@, ' ');
            let digits = spec_verbosity_digits(s@.subrange(pos + 1, s@.len() as int));
            &&& (r is Ok <==> valid_u8_digits(digits))
            &&& (r matches Ok(p) ==> p.0@ == s@.subrange(0, pos) && p.1 == digits_value(digits))
        },
{
    let n = s.unicode_len();
    let mut i: usize = 0;
    while i < n
        invariant
            i <= n,
            n == s@.len(),
            forall|m: int| 0 <= m < i ==> s@[m] != ' ',
        decreases n - i,
    {
        if s.get_char(i) == ' ' {
            proof {
                lemma_first_char_at_is(s@, ' ', i as int);
            }
            let url = s.substring_char(0, i).to_owned();
            let verbosity = match parse_u8(s.substring_char(i + 1, n)) {
                Err(e) => {
                    return Err(e);
                },
                Ok(v) => v,
            };
            return Ok((url, verbosity));
        }
        i = i + 1;
    }
    proof {
        lemma_first_char_at_is(s@, ' ', n as int);
    }
    Ok((s.to_owned(), 0))
}

/// The comma-separated parts of an origin list.
pub open spec fn split_commas(s: Seq<char>) -> Seq<Seq<char>>
    decreases s.len(),
{
    let i = first_char_at(s, ',');
    if i < 0 || i >= s.len() {
        seq![s]
    } else {
        seq![s.subrange(0, i)] + split_commas(s.subrange(i + 1, s.len() as int))
    }
}

/// A split always yields at least one part.
pub proof fn lemma_split_nonempty(s: Seq<char>)
    ensures
        split_commas(s).len() >= 1,
{
}

/// A part that turns the whole list into "allow all origins".
pub open spec fn is_all_part(p: Seq<char>) -> bool {
    p == "all"@ || p == "*"@
}

/// Whether two strings hold the same characters.
fn str_eq(a: &str, b: &str) -> (r: bool)
    ensures
        r == (a@ == b@),
{
    let n = a.unicode_len();
    if n != b.unicode_len() {
        return false;
    }
    let mut i: usize = 0;
    while i < n
        invariant
            i <= n,
            n == a@.len() && n == b@.len(),
            forall|m: int| 0 <= m < i ==> a@[m] == b@[m],
        decreases n - i,
    {
        if a.get_char(i) != b.get_char(i) {
            return false;
        }
        i = i + 1;
    }
    proof {
        assert(a@ =~= b@);
    }
    true
}

/// Parse comma-separated origins: any part equal to `all` or `*` disables
/// origin validation; otherwise every part is an allowed origin.
pub fn parse_cors(s: &str) -> (r: Result<Cors, Error>)
    ensures
        r is Ok,
        r == Ok::<Cors, Error>(Cors::All) <==> exists|j: int|
            0 <= j < split_commas(s@).len() && is_all_part(#[trigger] split_commas(s@)[j]),
        r matches Ok(c) && c matches Cors::List(l) ==> l.deep_view() == split_commas(s@),
{
    let ghost parts = split_commas(s@);
    let n = s.unicode_len();
    let mut origins: Vec<String> = Vec::new();
    let mut pos: usize = 0;
    let ghost mut pcount: int = 0;
    proof {
        assert(s@.subrange(0, n as int) =~= s@);
        assert(parts.subrange(0, parts.len() as int) =~= parts);
        lemma_split_nonempty(s@);
    }
    loop
        invariant
            pos <= n,
            n == s@.len(),
            parts == split_commas(s@),
            0 <= pcount <= parts.len(),
            origins@.len() == pcount,
            forall|m: int| 0 <= m < pcount ==> (#[trigger] origins@[m])@ == parts[m],
            forall|m: int| 0 <= m < pcount ==> !is_all_part(#[trigger] parts[m]),
            parts.subrange(pcount, parts.len() as int) =~= split_commas(
                s@.subrange(pos as int, n as int),
            ),
            pcount < parts.len(),
        decreases n - pos,
    {
        let ghost rem = s@.subrange(pos as int, n as int);
        // find the end of the current part
        let mut j: usize = pos;
        let mut found = false;
        while j < n && !found
            invariant
                pos <= j <= n,
                n == s@.len(),
                forall|m: int| pos <= m < j ==> s@[m] != ',',
                found ==> j < n && s@[j as int] == ',',
            decreases n - j, (if found { 0int } else { 1int }),
        {
            if s.get_char(j) == ',' {
                found = true;
            } else {
                j = j + 1;
            }
        }
        let ghost cut = (j - pos) as int;
        proof {
            assert forall|m: int| 0 <= m < cut implies rem[m] != ',' by {
                assert(rem[m] == s@[pos + m]);
            }
            if found {
                assert(s@[j as int] == ',');
                assert(rem[cut] == s@[pos + cut]);
                assert(rem[cut] == ',');
                lemma_first_char_at_is(rem, ',', cut);
            } else {
                assert(j == n);
                lemma_first_char_at_is(rem, ',', rem.len() as int);
            }
        }
        let part = s.substring_char(pos, j);
        proof {
            assert(part@ =~= rem.subrange(0, cut));
            if found {
                assert(split_commas(rem) =~= seq![rem.subrange(0, cut)] + split_commas(
                    rem.subrange(cut + 1, rem.len() as int),
                ));
                assert(split_commas(rem)[0] == rem.subrange(0, cut));
            } else {
                assert(split_commas(rem) =~= seq![rem]);
                assert(part@ =~= rem);
                assert(split_commas(rem)[0] == rem);
            }
            assert(parts.subrange(pcount, parts.len() as int)[0] == split_commas(rem)[0]);
            assert(parts[pcount] == part@);
        }
        if str_eq(part, "all") || str_eq(part, "*") {
            proof {
                assert(is_all_part(parts[pcount]));
            }
            return Ok(Cors::All);
        }
        origins.push(part.to_owned());
        proof {
            pcount = pcount + 1;
        }
        if found {
            proof {
                assert(s@.subrange(j as int + 1, n as int) =~= rem.subrange(
                    cut + 1,
                    rem.len() as int,
                ));
                assert(parts.subrange(pcount, parts.len() as int) =~= split_commas(
                    rem,
                ).drop_first());
            }
            pos = j + 1;
            proof {
                lemma_split_nonempty(s@.subrange(pos as int, n as int));
                if pcount >= parts.len() {
                    assert(parts.subrange(pcount, parts.len() as int).len() == 0);
                    assert(false);
                }
            }
        } else {
            proof {
                assert(split_commas(rem).len() == 1);
                assert(parts.subrange(pcount - 1, parts.len() as int) =~= split_commas(rem));
                assert(parts.len() - (pcount - 1) == 1);
                assert(pcount == parts.len());
                assert(origins.deep_view() =~= parts);
                assert forall|jj: int| 0 <= jj < parts.len() implies !is_all_part(
                    #[trigger] parts[jj],
                ) by {}
            }
            return Ok(Cors::List(origins));
        }
    }
}

/// The interface an RPC server binds: external interfaces are refused on a
/// validator unless explicitly forced, and local is the default.
pub fn interface_str(is_external: bool, is_unsafe_external: bool, is_validator: bool) -> (r: Result<
    &'static str,
    Error,
>)
    ensures
        is_external && is_validator ==> r is Err,
        !(is_external && is_validator) && (is_external || is_unsafe_external) ==> (r matches Ok(s)
            && s@ == "0.0.0.0"@),
        !(is_external && is_validator) && !(is_external || is_unsafe_external) ==> (r matches Ok(s)
            && s@ == "127.0.0.1"@),
{
    if is_external && is_validator {
        return Err(
            Error::Input(
                String::from_str(
                    "--rpc-external and --ws-external options shouldn't be used if the node is running as a validator. Use `--unsafe-rpc-external` if you understand the risks. See the options description for more information.",
                ),
            ),
        );
    }
    if is_external || is_unsafe_external {
        Ok("0.0.0.0")
    } else {
        Ok("127.0.0.1")
    }
}

} // verus!
