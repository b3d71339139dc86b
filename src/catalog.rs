//! Tools as servers advertise them, and as the catalog holds them: each
//! entry is addressed by its owning server's name joined to the tool's name,
//! so that equal tool names on two servers stay apart.
use vstd::prelude::*;
use crate::config::{separator, well_formed_name};

verus! {

/// A tool as a server lists it.
#[derive(Debug, Clone, PartialEq, Eq)]
pub struct ToolSpec {
    pub name: String,
    pub description: String,
    /// The JSON schema of the tool's arguments, as text.
    pub input_schema: String,
}

pub struct ToolSpecView {
    pub name: Seq<char>,
    pub description: Seq<char>,
    pub input_schema: Seq<char>,
}

impl View for ToolSpec {
    type V = ToolSpecView;

    open spec fn view(&self) -> ToolSpecView {
        ToolSpecView {
            name: self.name@,
            description: self.description@,
            input_schema: self.input_schema@,
        }
    }
}

/// A tool in the catalog, with the server that owns it and its address.
#[derive(Debug, Clone, PartialEq, Eq)]
pub struct ToolEntry {
    pub server: String,
    pub name: String,
    pub qualified: String,
    pub description: String,
    pub input_schema: String,
}

pub struct ToolView {
    pub server: Seq<char>,
    pub name: Seq<char>,
    pub qualified: Seq<char>,
    pub description: Seq<char>,
    pub input_schema: Seq<char>,
}

impl View for ToolEntry {
    type V = ToolView;

    open spec fn view(&self) -> ToolView {
        ToolView {
            server: self.server@,
            name: self.name@,
            qualified: self.qualified@,
            description: self.description@,
            input_schema: self.input_schema@,
        }
    }
}

/// The address of tool `tool` on server `server`.
pub open spec fn qualify(server: Seq<char>, tool: Seq<char>) -> Seq<char> {
    server + seq![separator()] + tool
}

/// The catalog entry that a listing of `server` yields for `t`.
pub open spec fn entry_of(server: Seq<char>, t: ToolSpecView) -> ToolView {
    ToolView {
        server,
        name: t.name,
        qualified: qualify(server, t.name),
        description: t.description,
        input_schema: t.input_schema,
    }
}

/// Two addresses are equal only for the same server and tool, as long as
/// server names are well formed.
pub proof fn lemma_qualify_injective(s1: Seq<char>, t1: Seq<char>, s2: Seq<char>, t2: Seq<char>)
    requires
        well_formed_name(s1),
        well_formed_name(s2),
        qualify(s1, t1) == qualify(s2, t2),
    ensures
        s1 == s2,
        t1 == t2,
{
    let q = qualify(s1, t1);
    assert(q[s1.len() as int] == separator());
    assert(q[s2.len() as int] == separator());
    if s1.len() < s2.len() {
        assert(q[s1.len() as int] == s2[s1.len() as int]);
    } else if s2.len() < s1.len() {
        assert(q[s2.len() as int] == s1[s2.len() as int]);
    }
    assert(s1 =~= q.subrange(0, s1.len() as int));
    assert(s2 =~= q.subrange(0, s2.len() as int));
    assert(t1 =~= q.subrange(s1.len() as int + 1, q.len() as int));
    assert(t2 =~= q.subrange(s2.len() as int + 1, q.len() as int));
}

/// Builds the address of `tool` on `server`.
pub fn qualified_name(server: &String, tool: &String) -> (r: String)
    ensures
        r@ == qualify(server@, tool@),
{
    let mut q = server.clone();
    proof {
        reveal_strlit("/");
    }
    q.append("/");
    q.append(tool.as_str());
    q
}

/// Makes the catalog entry for `t`, listed by `server`.
pub fn make_entry(server: &String, t: ToolSpec) -> (r: ToolEntry)
    ensures
        r@ == entry_of(server@, t@),
{
    let qualified = qualified_name(server, &t.name);
    ToolEntry {
        server: server.clone(),
        name: t.name,
        qualified,
        description: t.description,
        input_schema: t.input_schema,
    }
}

} // verus!
