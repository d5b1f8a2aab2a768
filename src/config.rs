//! Per-remote configuration keys and the rules that turn configured values
//! into the settings the push and fetch paths use.
use vstd::prelude::*;
use vstd::string::{StringExecFns, StringSliceAdditionalSpecFns};

use crate::bytes::{has_prefix, starts_with};
use crate::codec::{MAX_CHUNK_SIZE, MIN_CHUNK_SIZE};
use crate::wire::put_bytes;

verus! {

/// The configuration keys, under `remote.<name>.` in git config.
#[derive(Clone, Copy, Debug, PartialEq, Eq, Hash, Structural)]
pub enum ConfigKey {
    Namespace,
    RemoteBranch,
    NamespaceNaclKey,
    StateNaclKey,
    ShallowBasis,
    MaxObjectSize,
}

/// A configured value as carried in an embedded configuration.
#[derive(Clone, Debug, PartialEq, Eq)]
pub enum ConfigValue {
    String(String),
    Int64(i64),
}

/// The one-letter name of a key in an embedded configuration.
pub open spec fn short_byte(k: ConfigKey) -> u8 {
    match k {
        ConfigKey::Namespace => 97u8,
        ConfigKey::RemoteBranch => 98u8,
        ConfigKey::NamespaceNaclKey => 99u8,
        ConfigKey::StateNaclKey => 100u8,
        ConfigKey::ShallowBasis => 101u8,
        ConfigKey::MaxObjectSize => 102u8,
    }
}

/// The key whose one-letter name is `b`.
pub open spec fn key_of_short(b: Seq<u8>) -> Option<ConfigKey> {
    if b.len() != 1 {
        None
    } else if b[0] == 97u8 {
        Some(ConfigKey::Namespace)
    } else if b[0] == 98u8 {
        Some(ConfigKey::RemoteBranch)
    } else if b[0] == 99u8 {
        Some(ConfigKey::NamespaceNaclKey)
    } else if b[0] == 100u8 {
        Some(ConfigKey::StateNaclKey)
    } else if b[0] == 101u8 {
        Some(ConfigKey::ShallowBasis)
    } else if b[0] == 102u8 {
        Some(ConfigKey::MaxObjectSize)
    } else {
        None
    }
}

impl ConfigKey {
    /// Whether the key holds an integer rather than a string.
    pub fn is_i64(&self) -> (r: bool)
        ensures
            r == (*self == ConfigKey::MaxObjectSize),
    {
        match self {
            ConfigKey::Namespace => false,
            ConfigKey::RemoteBranch => false,
            ConfigKey::NamespaceNaclKey => false,
            ConfigKey::StateNaclKey => false,
            ConfigKey::ShallowBasis => false,
            ConfigKey::MaxObjectSize => true,
        }
    }

    /// The one-letter name used in embedded configurations.
    pub fn as_short_str(&self) -> (r: &'static str)
        ensures
            r.spec_bytes() == seq![short_byte(*self)],
    {
        let r = match self {
            ConfigKey::Namespace => "a",
            ConfigKey::RemoteBranch => "b",
            ConfigKey::NamespaceNaclKey => "c",
            ConfigKey::StateNaclKey => "d",
            ConfigKey::ShallowBasis => "e",
            ConfigKey::MaxObjectSize => "f",
        };
        proof {
            reveal_strlit("a");
            reveal_strlit("b");
            reveal_strlit("c");
            reveal_strlit("d");
            reveal_strlit("e");
            reveal_strlit("f");
            vstd::string::is_ascii_spec_bytes(r);
            assert(r.spec_bytes() =~= seq![short_byte(*self)]);
        }
        r
    }

    /// The key with the given one-letter name.
    pub fn from_short_str(short_str: &str) -> (r: Option<ConfigKey>)
        ensures
            r == key_of_short(short_str.spec_bytes()),
    {
        let b = short_str.as_bytes();
        if b.len() != 1 {
            return None;
        }
        let c = b[0];
        if c == 97u8 {
            Some(ConfigKey::Namespace)
        } else if c == 98u8 {
            Some(ConfigKey::RemoteBranch)
        } else if c == 99u8 {
            Some(ConfigKey::NamespaceNaclKey)
        } else if c == 100u8 {
            Some(ConfigKey::StateNaclKey)
        } else if c == 101u8 {
            Some(ConfigKey::ShallowBasis)
        } else if c == 102u8 {
            Some(ConfigKey::MaxObjectSize)
        } else {
            None
        }
    }

    /// The git config name of the key.
    pub fn config_name(&self) -> (r: &'static str)
        ensures
            *self == ConfigKey::Namespace ==> r@ == "recursive-namespace"@,
            *self == ConfigKey::RemoteBranch ==> r@ == "recursive-remote-branch"@,
            *self == ConfigKey::NamespaceNaclKey ==> r@ == "recursive-namespace-nacl-key"@,
            *self == ConfigKey::StateNaclKey ==> r@ == "recursive-state-nacl-key"@,
            *self == ConfigKey::ShallowBasis ==> r@ == "recursive-shallow-basis"@,
            *self == ConfigKey::MaxObjectSize ==> r@ == "recursive-max-object-size"@,
    {
        match self {
            ConfigKey::Namespace => "recursive-namespace",
            ConfigKey::RemoteBranch => "recursive-remote-branch",
            ConfigKey::NamespaceNaclKey => "recursive-namespace-nacl-key",
            ConfigKey::StateNaclKey => "recursive-state-nacl-key",
            ConfigKey::ShallowBasis => "recursive-shallow-basis",
            ConfigKey::MaxObjectSize => "recursive-max-object-size",
        }
    }

    /// Every key, in declaration order.
    pub fn all() -> (r: Vec<ConfigKey>)
        ensures
            r@ == seq![
                ConfigKey::Namespace,
                ConfigKey::RemoteBranch,
                ConfigKey::NamespaceNaclKey,
                ConfigKey::StateNaclKey,
                ConfigKey::ShallowBasis,
                ConfigKey::MaxObjectSize,
            ],
    {
        let mut v: Vec<ConfigKey> = Vec::new();
        v.push(ConfigKey::Namespace);
        v.push(ConfigKey::RemoteBranch);
        v.push(ConfigKey::NamespaceNaclKey);
        v.push(ConfigKey::StateNaclKey);
        v.push(ConfigKey::ShallowBasis);
        v.push(ConfigKey::MaxObjectSize);
        assert(v@ =~= seq![
            ConfigKey::Namespace,
            ConfigKey::RemoteBranch,
            ConfigKey::NamespaceNaclKey,
            ConfigKey::StateNaclKey,
            ConfigKey::ShallowBasis,
            ConfigKey::MaxObjectSize,
        ]);
        v
    }
}

/// Why a configuration is refused.
#[derive(Debug, Clone, Copy, PartialEq, Eq)]
pub enum ConfigError {
    /// The maximum object size is below the smallest chunk size.
    ObjectSizeTooSmall,
    /// The maximum object size is above the largest chunk size.
    ObjectSizeTooLarge,
    /// Only one of the namespace and state keys is set.
    UnpairedKeys,
}

/// The default maximum object size: 20 MiB.
pub const DEFAULT_MAX_OBJECT_SIZE: i64 = 20971520;

/// The chunk size from the configured maximum object size, if any.
pub fn max_object_size(configured: Option<i64>) -> (r: Result<usize, ConfigError>)
    ensures
        ({
            let v: int = match configured {
                Some(x) => x as int,
                None => DEFAULT_MAX_OBJECT_SIZE as int,
            };
            &&& r matches Ok(n) ==> n as int == v && MIN_CHUNK_SIZE <= n <= MAX_CHUNK_SIZE
            &&& r == Err::<usize, ConfigError>(ConfigError::ObjectSizeTooSmall) <==> v < MIN_CHUNK_SIZE
            &&& r == Err::<usize, ConfigError>(ConfigError::ObjectSizeTooLarge) <==> v > MAX_CHUNK_SIZE
        }),
{
    let v = match configured {
        Some(x) => x,
        None => DEFAULT_MAX_OBJECT_SIZE,
    };
    if v < MIN_CHUNK_SIZE as i64 {
        return Err(ConfigError::ObjectSizeTooSmall);
    }
    if v > MAX_CHUNK_SIZE as i64 {
        return Err(ConfigError::ObjectSizeTooLarge);
    }
    Ok(v as usize)
}

/// Both keys or neither.
pub fn pair_keys<K>(namespace_key: Option<K>, state_key: Option<K>) -> (r: Result<Option<(K, K)>, ConfigError>)
    ensures
        namespace_key is Some && state_key is Some ==> r == Ok::<Option<(K, K)>, ConfigError>(Some((namespace_key->Some_0, state_key->Some_0))),
        namespace_key is None && state_key is None ==> r == Ok::<Option<(K, K)>, ConfigError>(None),
        namespace_key is Some != state_key is Some ==> r == Err::<Option<(K, K)>, ConfigError>(ConfigError::UnpairedKeys),
{
    match namespace_key {
        Some(n) => match state_key {
            Some(s) => Ok(Some((n, s))),
            None => Err(ConfigError::UnpairedKeys),
        },
        None => match state_key {
            Some(_) => Err(ConfigError::UnpairedKeys),
            None => Ok(None),
        },
    }
}

/// `refs/heads/`
pub open spec fn heads_prefix() -> Seq<u8> {
    seq![114u8, 101u8, 102u8, 115u8, 47u8, 104u8, 101u8, 97u8, 100u8, 115u8, 47u8]
}

fn heads_prefix_bytes() -> (r: Vec<u8>)
    ensures
        r@ == heads_prefix(),
{
    let mut v: Vec<u8> = Vec::new();
    v.push(114u8);
    v.push(101u8);
    v.push(102u8);
    v.push(115u8);
    v.push(47u8);
    v.push(104u8);
    v.push(101u8);
    v.push(97u8);
    v.push(100u8);
    v.push(115u8);
    v.push(47u8);
    assert(v@ =~= heads_prefix());
    v
}

/// The backend ref of the upstream branch: the configured branch under
/// `refs/heads/` unless it is there already; `refs/heads/main` by default.
pub fn remote_branch_ref(configured: Option<&[u8]>) -> (r: Vec<u8>)
    ensures
        configured matches Some(b) ==> r@ == (if has_prefix(b@, heads_prefix()) {
            b@
        } else {
            heads_prefix() + b@
        }),
        configured is None ==> r@ == heads_prefix() + seq![109u8, 97u8, 105u8, 110u8],
{
    let mut out = heads_prefix_bytes();
    match configured {
        Some(b) => {
            if starts_with(b, out.as_slice()) {
                crate::bytes::copy_bytes(b)
            } else {
                put_bytes(&mut out, b);
                out
            }
        },
        None => {
            out.push(109u8);
            out.push(97u8);
            out.push(105u8);
            out.push(110u8);
            assert(out@ =~= heads_prefix() + seq![109u8, 97u8, 105u8, 110u8]);
            out
        },
    }
}

/// Where the remote keeps its local state, under the user repository's git
/// directory.
pub struct Args {
    pub user_repo_path: String,
    pub tracking_repo_path: String,
    pub push_semantics_repo_path: String,
    pub all_objects_ever_repo_path: String,
    pub remote_name: String,
    pub lock_path: String,
    pub state_path: String,
    pub remote_url: String,
}

fn joined(base: &String, leaf: &str) -> (r: String)
    ensures
        r@ == base@ + leaf@,
{
    let mut s = base.clone();
    s.append(leaf);
    s
}

impl Args {
    /// The layout under `user_repo_path`: a `recursive_remote` directory with
    /// the three stores and the lock directory.
    pub fn new(user_repo_path: String, remote_name: &str, remote_url: &str) -> (r: Args)
        ensures
            r.user_repo_path@ == user_repo_path@,
            r.state_path@ == user_repo_path@ + "/recursive_remote"@,
            r.tracking_repo_path@ == r.state_path@ + "/tracking_repo"@,
            r.push_semantics_repo_path@ == r.state_path@ + "/push_semantics_repo"@,
            r.all_objects_ever_repo_path@ == r.state_path@ + "/all_objects_ever_repo"@,
            r.lock_path@ == r.state_path@ + "/locks"@,
            r.remote_name@ == remote_name@,
            r.remote_url@ == remote_url@,
    {
        let state_path = joined(&user_repo_path, "/recursive_remote");
        Args {
            tracking_repo_path: joined(&state_path, "/tracking_repo"),
            push_semantics_repo_path: joined(&state_path, "/push_semantics_repo"),
            all_objects_ever_repo_path: joined(&state_path, "/all_objects_ever_repo"),
            lock_path: joined(&state_path, "/locks"),
            state_path,
            user_repo_path,
            remote_name: String::from_str(remote_name),
            remote_url: String::from_str(remote_url),
        }
    }
}

} // verus!
