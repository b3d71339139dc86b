//! Server descriptors, as read from the configuration file, and their
//! validation before any connection attempt starts.
use vstd::prelude::*;

verus! {

/// How a server is reached.
#[derive(Debug, Clone, PartialEq, Eq)]
pub enum McpServerTransportConfig {
    /// Streamable HTTP at the given endpoint.
    Streamable { url: String },
}

/// One remote tool server: its unique name and how to reach it.
#[derive(Debug, Clone, PartialEq, Eq)]
pub struct McpServerConfig {
    pub name: String,
    pub transport: McpServerTransportConfig,
}

/// The ordered list of tool servers.
#[derive(Debug, Clone, PartialEq, Eq)]
pub struct McpConfig {
    pub server: Vec<McpServerConfig>,
}

/// The whole configuration file.
#[derive(Debug, Clone, PartialEq, Eq)]
pub struct Config {
    pub mcp: McpConfig,
}

/// A descriptor set that must be rejected before any connection starts.
#[derive(Debug, Clone, PartialEq, Eq)]
pub enum ConfigurationError {
    /// A server name occurs more than once.
    DuplicateName(String),
    /// A server name is empty or holds the separator of qualified tool names.
    MalformedName(String),
}

/// The character that joins a server name and a tool name into a tool's
/// address in the catalog.
pub open spec fn separator() -> char {
    '/'
}

/// A server name is usable as a registry key and as the first half of a
/// qualified tool name.
pub open spec fn well_formed_name(name: Seq<char>) -> bool {
    &&& name.len() > 0
    &&& forall|i: int| 0 <= i < name.len() ==> name[i] != separator()
}

pub open spec fn server_names(servers: Seq<McpServerConfig>) -> Seq<Seq<char>> {
    servers.map_values(|s: McpServerConfig| s.name@)
}

/// The first `n` names are well formed and pairwise distinct.
pub open spec fn names_valid_upto(names: Seq<Seq<char>>, n: int) -> bool {
    &&& forall|i: int| 0 <= i < n ==> well_formed_name(#[trigger] names[i])
    &&& forall|i: int, j: int| 0 <= i < j < n ==> names[i] != names[j]
}

pub open spec fn names_valid(names: Seq<Seq<char>>) -> bool {
    names_valid_upto(names, names.len() as int)
}

/// The error reported for the name at `i`, the first one that breaks validity.
pub open spec fn error_at(names: Seq<Seq<char>>, i: int, e: ConfigurationError) -> bool {
    &&& names_valid_upto(names, i)
    &&& !names_valid_upto(names, i + 1)
    &&& match e {
        ConfigurationError::MalformedName(n) => n@ == names[i] && !well_formed_name(names[i]),
        ConfigurationError::DuplicateName(n) => n@ == names[i] && well_formed_name(names[i]),
    }
}

/// Whether `name` holds a character that may not stand in a server name.
pub(crate) fn has_separator(name: &String) -> (r: bool)
    ensures
        r == exists|i: int| 0 <= i < name@.len() && name@[i] == separator(),
{
    let s = name.as_str();
    let n = s.unicode_len();
    let mut i: usize = 0;
    while i < n
        invariant
            n == s@.len(),
            s@ == name@,
            i <= n,
            forall|j: int| 0 <= j < i ==> s@[j] != separator(),
        decreases n - i,
    {
        if s.get_char(i) == '/' {
            return true;
        }
        i = i + 1;
    }
    false
}

impl McpConfig {
    /// Rejects a descriptor set whose names are not usable: the first name,
    /// in configuration order, that is malformed or repeats an earlier one.
    pub fn validate(&self) -> (r: Result<(), ConfigurationError>)
        ensures
            r is Ok <==> names_valid(server_names(self.server@)),
            (exists|i: int, j: int| 0 <= i < j < self.server@.len()
                && self.server@[i].name@ == self.server@[j].name@) ==> r is Err,
            r matches Err(e) ==> exists|i: int|
                0 <= i < self.server@.len() && error_at(server_names(self.server@), i, e),
    {
        let ghost names = server_names(self.server@);
        let n = self.server.len();
        let mut i: usize = 0;
        while i < n
            invariant
                n == self.server@.len(),
                names == server_names(self.server@),
                i <= n,
                names_valid_upto(names, i as int),
            decreases n - i,
        {
            let name = &self.server[i].name;
            assert(names[i as int] == name@);
            if name.as_str().unicode_len() == 0 || has_separator(name) {
                assert(!well_formed_name(names[i as int]));
                assert(!names_valid_upto(names, n as int));
                let e = ConfigurationError::MalformedName(name.clone());
                assert(error_at(names, i as int, e));
                return Err(e);
            }
            assert(well_formed_name(names[i as int]));
            let mut j: usize = 0;
            while j < i
                invariant
                    n == self.server@.len(),
                    names == server_names(self.server@),
                    j <= i < n,
                    *name == self.server@[i as int].name,
                    names_valid_upto(names, i as int),
                    well_formed_name(names[i as int]),
                    forall|t: int| 0 <= t < j ==> names[t] != names[i as int],
                decreases i - j,
            {
                if self.server[j].name == *name {
                    assert(names[j as int] == names[i as int]);
                    assert(!names_valid_upto(names, n as int));
                    let e = ConfigurationError::DuplicateName(name.clone());
                    assert(error_at(names, i as int, e));
                    return Err(e);
                }
                j = j + 1;
            }
            i = i + 1;
        }
        assert forall|a: int, b: int| 0 <= a < b < n implies self.server@[a].name@ != self.server@[b].name@ by {
            assert(names[a] == self.server@[a].name@ && names[b] == self.server@[b].name@);
        }
        Ok(())
    }
}

} // verus!
