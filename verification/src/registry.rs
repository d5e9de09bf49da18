//! The tool registry: every backend's tools under their qualified names
//! (`server/tool`), bare-name aliases for names that only one server
//! offers, collision records for names that several offer, and display
//! aliases for servers listed under a prefix of their own.
use vstd::prelude::*;
use vstd::string::*;
use crate::routing::{find_char, first_index, qualified_tool_name, spec_qualified_name};
use crate::table::{
    NameTable, drop_pair, lemma_pair_at, lemma_pairs_distinct, pair_get, pair_names_distinct, put_pair,
};
use crate::text::{str_eq, to_chars};
use crate::usage::{UsageEntry, UsageTracker};

verus! {

/// Errors of registry lookups.
pub enum RegistryError {
    /// No tool has the given name.
    ToolNotFound(String),
    /// No server has the given name.
    ServerNotFound(String),
    /// Several servers offer a tool under the given name.
    Collision(String),
}

impl RegistryError {
    /// The message shown for the error.
    pub fn message(&self) -> (m: String)
        ensures
            m@ == match self {
                RegistryError::ToolNotFound(n) => "Tool not found: "@ + n@,
                RegistryError::ServerNotFound(n) => "Server not found: "@ + n@,
                RegistryError::Collision(n) => "Collision detected: "@ + n@,
            },
    {
        let (lead, name) = match self {
            RegistryError::ToolNotFound(n) => ("Tool not found: ", n),
            RegistryError::ServerNotFound(n) => ("Server not found: ", n),
            RegistryError::Collision(n) => ("Collision detected: ", n),
        };
        let mut m = String::from_str(lead);
        m.append(name.as_str());
        m
    }
}

/// A tool as a backend offered it, with the names it is registered under.
/// `input_schema` is the tool's JSON schema as text.
pub struct ToolEntry {
    pub original_name: String,
    pub qualified_name: String,
    pub server_name: String,
    pub description: Option<String>,
    pub input_schema: String,
    pub tags: Vec<String>,
    pub call_count: u64,
}

/// A copy of the strings of `v`, in order.
pub fn copy_strings(v: &Vec<String>) -> (r: Vec<String>)
    ensures
        r.deep_view() == v.deep_view(),
{
    let mut r: Vec<String> = Vec::new();
    let mut i: usize = 0;
    while i < v.len()
        invariant
            i <= v.len(),
            r.deep_view() == v.deep_view().take(i as int),
        decreases v.len() - i,
    {
        let ghost r0 = r.deep_view();
        r.push(v[i].clone());
        assert(r.deep_view() =~= r0.push(v[i as int]@));
        assert(v.deep_view().take(i + 1) =~= v.deep_view().take(i as int).push(v[i as int]@));
        i = i + 1;
    }
    assert(v.deep_view().take(v.len() as int) =~= v.deep_view());
    r
}

impl ToolEntry {
    /// A copy of the entry.
    pub fn duplicate(&self) -> (r: ToolEntry)
        ensures
            r.deep_view() == self.deep_view(),
    {
        ToolEntry {
            original_name: self.original_name.clone(),
            qualified_name: self.qualified_name.clone(),
            server_name: self.server_name.clone(),
            description: match &self.description {
                Some(d) => Some(d.clone()),
                None => None,
            },
            input_schema: self.input_schema.clone(),
            tags: copy_strings(&self.tags),
            call_count: self.call_count,
        }
    }
}

/// The value of a `ToolEntry`.
pub struct ToolEntryView {
    pub original_name: Seq<char>,
    pub qualified_name: Seq<char>,
    pub server_name: Seq<char>,
    pub description: Option<Seq<char>>,
    pub input_schema: Seq<char>,
    pub tags: Seq<Seq<char>>,
    pub call_count: u64,
}

impl DeepView for ToolEntry {
    type V = ToolEntryView;

    open spec fn deep_view(&self) -> ToolEntryView {
        ToolEntryView {
            original_name: self.original_name@,
            qualified_name: self.qualified_name@,
            server_name: self.server_name@,
            description: self.description.deep_view(),
            input_schema: self.input_schema@,
            tags: self.tags.deep_view(),
            call_count: self.call_count,
        }
    }
}

/// The entry as registered by `server`: its qualified name and its server
/// set, the rest as offered.
pub open spec fn placed(t: ToolEntryView, server: Seq<char>) -> ToolEntryView {
    ToolEntryView {
        original_name: t.original_name,
        qualified_name: spec_qualified_name(server, t.original_name),
        server_name: server,
        description: t.description,
        input_schema: t.input_schema,
        tags: t.tags,
        call_count: t.call_count,
    }
}

/// What follows the first `/` of a qualified name, if it has one.
pub open spec fn after_slash(q: Seq<char>) -> Option<Seq<char>> {
    if first_index(q, '/') >= 0 {
        Some(q.skip(first_index(q, '/') + 1))
    } else {
        None
    }
}

/// The registry's contents.
pub struct RegistryModel {
    /// Qualified name to entry.
    pub tools: Map<Seq<char>, ToolEntryView>,
    /// Server name to the qualified names it registered, in registration order.
    pub server_tools: Seq<(Seq<char>, Seq<Seq<char>>)>,
    /// Bare tool name to the one qualified name it stands for.
    pub aliases: Map<Seq<char>, Seq<char>>,
    /// Bare tool name to the qualified names that collided on it.
    pub collisions: Map<Seq<char>, Seq<Seq<char>>>,
    /// Name under a display prefix to the canonical qualified name.
    pub display_aliases: Map<Seq<char>, Seq<char>>,
}

/// What a lookup of `name` finds: a tool by its qualified name, else by a
/// display alias, else by a bare-name alias.
pub open spec fn spec_lookup(m: RegistryModel, name: Seq<char>) -> Option<ToolEntryView> {
    if m.tools.contains_key(name) {
        Some(m.tools[name])
    } else if m.display_aliases.contains_key(name) {
        if m.tools.contains_key(m.display_aliases[name]) {
            Some(m.tools[m.display_aliases[name]])
        } else {
            None
        }
    } else if m.aliases.contains_key(name) {
        if m.tools.contains_key(m.aliases[name]) {
            Some(m.tools[m.aliases[name]])
        } else {
            None
        }
    } else {
        None
    }
}

/// The names that collided on `o`, with `q` added.
pub open spec fn collided(c: Map<Seq<char>, Seq<Seq<char>>>, o: Seq<char>, q: Seq<char>) -> Seq<Seq<char>> {
    if c.contains_key(o) {
        c[o].push(q)
    } else {
        seq![q]
    }
}

/// Registering one tool of `server`. With `bare`, its bare name becomes
/// an alias when no alias has it yet and no collision is recorded on it;
/// otherwise the alias, if any, goes and the collision is recorded, so that
/// a bare name stays unresolved while several servers offer it.
pub open spec fn register_one(m: RegistryModel, server: Seq<char>, bare: bool, t: ToolEntryView) -> RegistryModel {
    let o = t.original_name;
    let q = spec_qualified_name(server, o);
    let collision = bare && (m.aliases.contains_key(o) || m.collisions.contains_key(o));
    RegistryModel {
        tools: m.tools.insert(q, placed(t, server)),
        server_tools: m.server_tools,
        aliases: if !bare {
            m.aliases
        } else if collision {
            m.aliases.remove(o)
        } else {
            m.aliases.insert(o, q)
        },
        collisions: if collision {
            m.collisions.insert(o, collided(m.collisions, o, q))
        } else {
            m.collisions
        },
        display_aliases: m.display_aliases,
    }
}

/// Registering the tools of `ts` one after the other.
pub open spec fn register_all(m: RegistryModel, server: Seq<char>, bare: bool, ts: Seq<ToolEntryView>) -> RegistryModel
    decreases ts.len(),
{
    if ts.len() == 0 {
        m
    } else {
        register_one(register_all(m, server, bare, ts.drop_last()), server, bare, ts.last())
    }
}

/// The qualified names of `ts` under `server`, in order.
pub open spec fn qualified_names(server: Seq<char>, ts: Seq<ToolEntryView>) -> Seq<Seq<char>> {
    ts.map_values(|t: ToolEntryView| spec_qualified_name(server, t.original_name))
}

/// Registering `ts` for `server`, shown under `prefix`: bare names are
/// managed only when the prefix is empty or the server's own name; the
/// server's tool list becomes the qualified names of `ts`.
pub open spec fn spec_register(m: RegistryModel, server: Seq<char>, prefix: Seq<char>, ts: Seq<ToolEntryView>) -> RegistryModel {
    let bare = !(prefix.len() > 0 && prefix != server);
    let r = register_all(m, server, bare, ts);
    RegistryModel {
        tools: r.tools,
        server_tools: put_pair(r.server_tools, server, qualified_names(server, ts)),
        aliases: r.aliases,
        collisions: r.collisions,
        display_aliases: r.display_aliases,
    }
}

/// `s` without the occurrences of `q`.
pub open spec fn others(s: Seq<Seq<char>>, q: Seq<char>) -> Seq<Seq<char>> {
    s.filter(|x: Seq<char>| x != q)
}

/// Removing the tool named `q`, if there is one: its bare alias goes when
/// it stands for `q`, and `q` leaves the collision record of its bare
/// name, which goes when nothing is left in it.
pub open spec fn drop_one(m: RegistryModel, q: Seq<char>) -> RegistryModel {
    if m.tools.contains_key(q) {
        let o = m.tools[q].original_name;
        let rest = others(m.collisions[o], q);
        RegistryModel {
            tools: m.tools.remove(q),
            server_tools: m.server_tools,
            aliases: if m.aliases.contains_key(o) && m.aliases[o] == q {
                m.aliases.remove(o)
            } else {
                m.aliases
            },
            collisions: if !m.collisions.contains_key(o) {
                m.collisions
            } else if rest.len() == 0 {
                m.collisions.remove(o)
            } else {
                m.collisions.insert(o, rest)
            },
            display_aliases: m.display_aliases,
        }
    } else {
        m
    }
}

/// Removing the tools named in `qs`, one after the other.
pub open spec fn drop_all(m: RegistryModel, qs: Seq<Seq<char>>) -> RegistryModel
    decreases qs.len(),
{
    if qs.len() == 0 {
        m
    } else {
        drop_one(drop_all(m, qs.drop_last()), qs.last())
    }
}

/// Every qualified name in the server lists, list after list.
pub open spec fn all_listed(p: Seq<(Seq<char>, Seq<Seq<char>>)>) -> Seq<Seq<char>>
    decreases p.len(),
{
    if p.len() == 0 {
        Seq::empty()
    } else {
        all_listed(p.drop_last()) + p.last().1
    }
}

/// The listed qualified names whose bare part is `o`.
pub open spec fn owners(p: Seq<(Seq<char>, Seq<Seq<char>>)>, o: Seq<char>) -> Seq<Seq<char>> {
    all_listed(p).filter(|q: Seq<char>| after_slash(q) == Some(o))
}

/// After a removal: the bare part of `q` gets its alias back when it has
/// none and exactly one listed name still has that bare part; its
/// collision record then goes.
pub open spec fn restore_one(m: RegistryModel, q: Seq<char>) -> RegistryModel {
    match after_slash(q) {
        Some(o) => if !m.aliases.contains_key(o) && owners(m.server_tools, o).len() == 1 {
            RegistryModel {
                tools: m.tools,
                server_tools: m.server_tools,
                aliases: m.aliases.insert(o, owners(m.server_tools, o)[0]),
                collisions: m.collisions.remove(o),
                display_aliases: m.display_aliases,
            }
        } else {
            m
        },
        None => m,
    }
}

/// `restore_one` for the names of `qs`, one after the other.
pub open spec fn restore_all(m: RegistryModel, qs: Seq<Seq<char>>) -> RegistryModel
    decreases qs.len(),
{
    if qs.len() == 0 {
        m
    } else {
        restore_one(restore_all(m, qs.drop_last()), qs.last())
    }
}

/// Unregistering `server`: when it has a tool list, the list goes, its
/// tools go, and bare aliases that are no longer contested come back.
pub open spec fn spec_unregister(m: RegistryModel, server: Seq<char>) -> RegistryModel {
    match pair_get(m.server_tools, server) {
        None => m,
        Some(list) => {
            let m1 = RegistryModel {
                tools: m.tools,
                server_tools: drop_pair(m.server_tools, server),
                aliases: m.aliases,
                collisions: m.collisions,
                display_aliases: m.display_aliases,
            };
            restore_all(drop_all(m1, list), list)
        },
    }
}

/// The strings of `c` other than `q`, in order.
fn without_name(c: &Vec<String>, q: &str) -> (r: Vec<String>)
    ensures
        r.deep_view() == others(c.deep_view(), q@),
{
    let ghost cs = c.deep_view();
    let mut r: Vec<String> = Vec::new();
    let mut i: usize = 0;
    assert(cs.take(0) =~= Seq::<Seq<char>>::empty());
    assert(r.deep_view() =~= others(cs.take(0), q@));
    while i < c.len()
        invariant
            cs == c.deep_view(),
            i <= c.len(),
            r.deep_view() == others(cs.take(i as int), q@),
        decreases c.len() - i,
    {
        let ghost r0 = r.deep_view();
        assert(cs.take(i + 1) =~= cs.take(i as int).push(cs[i as int]));
        proof {
            cs.take(i as int).lemma_filter_push(cs[i as int], |x: Seq<char>| x != q@);
        }
        assert(cs[i as int] == c[i as int]@);
        if !str_eq(c[i].as_str(), q) {
            r.push(c[i].clone());
            assert(r.deep_view() =~= r0.push(cs[i as int]));
        }
        i = i + 1;
    }
    assert(cs.take(c.len() as int) =~= cs);
    r
}

/// The display aliases whose canonical name is not one of `server`'s,
/// that is, does not begin with `server/`.
pub open spec fn keep_other_servers(da: Map<Seq<char>, Seq<char>>, server: Seq<char>) -> Map<Seq<char>, Seq<char>> {
    Map::new(
        |k: Seq<char>| da.contains_key(k) && !(server + seq!['/']).is_prefix_of(da[k]),
        |k: Seq<char>| da[k],
    )
}

/// Rebuilding `server`'s tools: its display aliases go, it is
/// unregistered, and `ts` is registered for it under `prefix`.
pub open spec fn spec_rebuild(m: RegistryModel, server: Seq<char>, prefix: Seq<char>, ts: Seq<ToolEntryView>) -> RegistryModel {
    let m1 = RegistryModel {
        tools: m.tools,
        server_tools: m.server_tools,
        aliases: m.aliases,
        collisions: m.collisions,
        display_aliases: keep_other_servers(m.display_aliases, server),
    };
    spec_register(spec_unregister(m1, server), server, prefix, ts)
}

/// The display alias for the listed name `q`: `prefix/tool` for
/// `q == server/tool`.
pub open spec fn add_display_one(m: RegistryModel, prefix: Seq<char>, q: Seq<char>) -> RegistryModel {
    match after_slash(q) {
        Some(o) => RegistryModel {
            tools: m.tools,
            server_tools: m.server_tools,
            aliases: m.aliases,
            collisions: m.collisions,
            display_aliases: m.display_aliases.insert(spec_qualified_name(prefix, o), q),
        },
        None => m,
    }
}

/// `add_display_one` for the names of `qs`, one after the other.
pub open spec fn add_display_all(m: RegistryModel, prefix: Seq<char>, qs: Seq<Seq<char>>) -> RegistryModel
    decreases qs.len(),
{
    if qs.len() == 0 {
        m
    } else {
        add_display_one(add_display_all(m, prefix, qs.drop_last()), prefix, qs.last())
    }
}

/// Display aliases for a server shown under `prefix`: none when the
/// prefix is its own name; else one per listed tool.
pub open spec fn spec_display_aliases(m: RegistryModel, server: Seq<char>, prefix: Seq<char>) -> RegistryModel {
    if prefix == server {
        m
    } else {
        match pair_get(m.server_tools, server) {
            None => m,
            Some(list) => add_display_all(m, prefix, list),
        }
    }
}

/// The entries of the listed names that are registered, in list order.
pub open spec fn present(tools: Map<Seq<char>, ToolEntryView>, list: Seq<Seq<char>>) -> Seq<ToolEntryView> {
    list.filter(|q: Seq<char>| tools.contains_key(q)).map_values(|q: Seq<char>| tools[q])
}

/// `r` holds registered tools, each once.
pub open spec fn distinct_registered(r: Seq<ToolEntryView>, tools: Map<Seq<char>, ToolEntryView>) -> bool {
    &&& forall|i: int| 0 <= i < r.len() ==> tools.contains_key(#[trigger] r[i].qualified_name) && tools[r[i].qualified_name] == r[i]
    &&& forall|i: int, j: int| 0 <= i < r.len() && 0 <= j < r.len() && i != j ==> #[trigger] r[i].qualified_name != #[trigger] r[j].qualified_name
}

/// A qualified name determines its tool name, for a given server.
proof fn lemma_qualify_injective(server: Seq<char>, a: Seq<char>, b: Seq<char>)
    ensures
        spec_qualified_name(server, a) == spec_qualified_name(server, b) ==> a == b,
{
    if spec_qualified_name(server, a) == spec_qualified_name(server, b) {
        assert(spec_qualified_name(server, a).skip(server.len() as int + 1) =~= a);
        assert(spec_qualified_name(server, b).skip(server.len() as int + 1) =~= b);
    }
}

/// For a server name without `/`, the qualified name splits back into its
/// tool name, and it differs from every name without `/`.
proof fn lemma_after_slash_qualified(server: Seq<char>, o: Seq<char>)
    requires
        first_index(server, '/') < 0,
    ensures
        after_slash(spec_qualified_name(server, o)) == Some(o),
        first_index(spec_qualified_name(server, o), '/') == server.len(),
{
    let q = spec_qualified_name(server, o);
    crate::routing::lemma_first_index_after(server, seq!['/'] + o, '/');
    assert(q =~= server + (seq!['/'] + o));
    assert(first_index(seq!['/'] + o, '/') == 0);
    assert(q.skip(server.len() as int + 1) =~= o);
}

/// A name without `/` is no qualified name.
proof fn lemma_bare_not_qualified(server: Seq<char>, o: Seq<char>, n: Seq<char>)
    requires
        first_index(n, '/') < 0,
    ensures
        n != spec_qualified_name(server, o),
    decreases server.len(),
{
    let q = spec_qualified_name(server, o);
    if n == q {
        lemma_index_of_slash(server, o);
    }
}

/// A qualified name holds a `/`.
proof fn lemma_index_of_slash(server: Seq<char>, o: Seq<char>)
    ensures
        first_index(spec_qualified_name(server, o), '/') >= 0,
    decreases server.len(),
{
    let q = spec_qualified_name(server, o);
    if server.len() == 0 {
        assert(q[0] == '/');
    } else {
        lemma_index_of_slash(server.drop_first(), o);
        assert(q.drop_first() =~= spec_qualified_name(server.drop_first(), o));
    }
}

/// After registering `ts` for `server`, each tool's qualified name maps to
/// its entry, when the tool names of `ts` are distinct; the registry
/// holds no other new names.
proof fn lemma_register_all_tools(m: RegistryModel, server: Seq<char>, bare: bool, ts: Seq<ToolEntryView>)
    requires
        forall|i: int, j: int| 0 <= i < ts.len() && 0 <= j < ts.len() && i != j ==> #[trigger] ts[i].original_name != #[trigger] ts[j].original_name,
    ensures
        forall|i: int| 0 <= i < ts.len() ==> {
            let r = register_all(m, server, bare, ts);
            &&& r.tools.contains_key(spec_qualified_name(server, #[trigger] ts[i].original_name))
            &&& r.tools[spec_qualified_name(server, ts[i].original_name)] == placed(ts[i], server)
        },
        forall|k: Seq<char>| #[trigger] register_all(m, server, bare, ts).tools.contains_key(k)
            ==> m.tools.contains_key(k) || qualified_names(server, ts).contains(k),
        forall|k: Seq<char>| !qualified_names(server, ts).contains(k) && #[trigger] m.tools.contains_key(k)
            ==> register_all(m, server, bare, ts).tools.contains_key(k) && register_all(m, server, bare, ts).tools[k] == m.tools[k],
        register_all(m, server, bare, ts).server_tools == m.server_tools,
        register_all(m, server, bare, ts).display_aliases == m.display_aliases,
    decreases ts.len(),
{
    if ts.len() > 0 {
        let init = ts.drop_last();
        lemma_register_all_tools(m, server, bare, init);
        let t = ts.last();
        let n = ts.len() - 1;
        assert forall|i: int| 0 <= i < n implies spec_qualified_name(server, #[trigger] ts[i].original_name) != spec_qualified_name(server, t.original_name) by {
            assert(init[i] == ts[i]);
            lemma_qualify_injective(server, ts[i].original_name, t.original_name);
        }
        assert forall|i: int| 0 <= i < n implies #[trigger] init[i] == ts[i] by {}
        let r0 = register_all(m, server, bare, init);
        let r = register_all(m, server, bare, ts);
        assert(r == register_one(r0, server, bare, t));
        assert forall|i: int| 0 <= i < ts.len() implies r.tools.contains_key(spec_qualified_name(server, #[trigger] ts[i].original_name))
            && r.tools[spec_qualified_name(server, ts[i].original_name)] == placed(ts[i], server) by {
            if i < n {
                assert(init[i] == ts[i]);
                assert(r0.tools.contains_key(spec_qualified_name(server, init[i].original_name)));
                lemma_qualify_injective(server, ts[i].original_name, t.original_name);
            } else {
                assert(ts[i] == t);
            }
        }
        assert forall|k: Seq<char>| qualified_names(server, init).contains(k) || k == spec_qualified_name(server, t.original_name)
            <==> #[trigger] qualified_names(server, ts).contains(k) by {
            if qualified_names(server, init).contains(k) {
                let j = choose|j: int| 0 <= j < init.len() && qualified_names(server, init)[j] == k;
                assert(qualified_names(server, ts)[j] == k);
            }
            if k == spec_qualified_name(server, t.original_name) {
                assert(qualified_names(server, ts)[n] == k);
            }
            if qualified_names(server, ts).contains(k) {
                let j = choose|j: int| 0 <= j < ts.len() && qualified_names(server, ts)[j] == k;
                if j < n {
                    assert(qualified_names(server, init)[j] == k);
                }
            }
        }
    }
}

/// Law: after registering tools whose names are distinct, a lookup of
/// each tool's qualified name `server/tool` finds that tool, placed under
/// `server`.
pub proof fn lemma_register_then_lookup(m: RegistryModel, server: Seq<char>, prefix: Seq<char>, ts: Seq<ToolEntryView>)
    requires
        forall|i: int, j: int| 0 <= i < ts.len() && 0 <= j < ts.len() && i != j ==> #[trigger] ts[i].original_name != #[trigger] ts[j].original_name,
    ensures
        forall|i: int| 0 <= i < ts.len() ==> spec_lookup(
            spec_register(m, server, prefix, ts),
            spec_qualified_name(server, #[trigger] ts[i].original_name),
        ) == Some(placed(ts[i], server)),
{
    let bare = !(prefix.len() > 0 && prefix != server);
    lemma_register_all_tools(m, server, bare, ts);
}

/// Registering tools other than `o` leaves the alias of `o` alone.
proof fn lemma_register_all_keeps_alias(m: RegistryModel, server: Seq<char>, bare: bool, ts: Seq<ToolEntryView>, o: Seq<char>)
    requires
        forall|i: int| 0 <= i < ts.len() ==> (#[trigger] ts[i]).original_name != o,
    ensures
        register_all(m, server, bare, ts).aliases.contains_key(o) == m.aliases.contains_key(o),
        m.aliases.contains_key(o) ==> register_all(m, server, bare, ts).aliases[o] == m.aliases[o],
        register_all(m, server, bare, ts).collisions.contains_key(o) == m.collisions.contains_key(o),
        m.collisions.contains_key(o) ==> register_all(m, server, bare, ts).collisions[o] == m.collisions[o],
    decreases ts.len(),
{
    if ts.len() > 0 {
        assert forall|i: int| 0 <= i < ts.len() - 1 implies (#[trigger] ts.drop_last()[i]).original_name != o by {
            assert(ts.drop_last()[i] == ts[i]);
        }
        lemma_register_all_keeps_alias(m, server, bare, ts.drop_last(), o);
        assert(ts.last() == ts[ts.len() - 1]);
    }
}

/// Registering distinct-named tools with bare names managed: the bare name
/// of the `i`-th becomes its alias when it had neither an alias nor a
/// collision record, and otherwise has no alias and a collision record.
proof fn lemma_register_alias_of(m: RegistryModel, server: Seq<char>, ts: Seq<ToolEntryView>, i: int)
    requires
        forall|a: int, b: int| 0 <= a < ts.len() && 0 <= b < ts.len() && a != b ==> #[trigger] ts[a].original_name != #[trigger] ts[b].original_name,
        0 <= i < ts.len(),
    ensures
        ({
            let o = ts[i].original_name;
            let r = register_all(m, server, true, ts);
            if m.aliases.contains_key(o) || m.collisions.contains_key(o) {
                !r.aliases.contains_key(o) && r.collisions.contains_key(o)
                    && r.collisions[o] == collided(m.collisions, o, spec_qualified_name(server, o))
            } else {
                r.aliases.contains_key(o) && r.aliases[o] == spec_qualified_name(server, o)
                    && r.collisions.contains_key(o) == m.collisions.contains_key(o)
                    && (m.collisions.contains_key(o) ==> r.collisions[o] == m.collisions[o])
            }
        }),
{
    let o = ts[i].original_name;
    let pre = ts.take(i);
    let post = ts.skip(i + 1);
    assert forall|a: int| 0 <= a < pre.len() implies (#[trigger] pre[a]).original_name != o by {
        assert(pre[a] == ts[a]);
    }
    assert forall|a: int| 0 <= a < post.len() implies (#[trigger] post[a]).original_name != o by {
        assert(post[a] == ts[a + i + 1]);
    }
    lemma_register_all_keeps_alias(m, server, true, pre, o);
    let m1 = register_all(m, server, true, pre);
    assert(ts.take(i + 1).drop_last() =~= pre);
    let m2 = register_all(m, server, true, ts.take(i + 1));
    assert(m2 == register_one(m1, server, true, ts[i]));
    lemma_register_all_extend(m, server, true, ts, i + 1);
    lemma_register_all_keeps_alias(m2, server, true, post, o);
}

/// Law: a tool name without `/` that no alias, collision record, tool or
/// display alias had
/// becomes, once one server registers a tool under it (names distinct,
/// bare names managed), an alias that finds that tool.
pub proof fn lemma_bare_name_alias(m: RegistryModel, server: Seq<char>, ts: Seq<ToolEntryView>, i: int)
    requires
        forall|a: int, b: int| 0 <= a < ts.len() && 0 <= b < ts.len() && a != b ==> #[trigger] ts[a].original_name != #[trigger] ts[b].original_name,
        0 <= i < ts.len(),
        first_index(ts[i].original_name, '/') < 0,
        !m.aliases.contains_key(ts[i].original_name),
        !m.collisions.contains_key(ts[i].original_name),
        !m.tools.contains_key(ts[i].original_name),
        !m.display_aliases.contains_key(ts[i].original_name),
    ensures
        spec_lookup(spec_register(m, server, server, ts), ts[i].original_name) == Some(placed(ts[i], server)),
{
    let o = ts[i].original_name;
    lemma_register_alias_of(m, server, ts, i);
    lemma_register_all_tools(m, server, true, ts);
    assert forall|k: Seq<char>| qualified_names(server, ts).contains(k) implies k != o by {
        let j = choose|j: int| 0 <= j < ts.len() && qualified_names(server, ts)[j] == k;
        lemma_bare_not_qualified(server, ts[j].original_name, o);
    }
}

/// Law: when a second server registers a tool under a bare name that
/// another server's tool already holds as its alias, a lookup by the bare
/// name finds nothing, while both qualified names still find their tools
/// (server names without `/`, tool names distinct within each list, bare
/// names managed, the bare name without `/` and held by no tool or
/// display alias).
pub proof fn lemma_collision_hides_bare_name(
    m: RegistryModel,
    s1: Seq<char>,
    ts1: Seq<ToolEntryView>,
    i1: int,
    s2: Seq<char>,
    ts2: Seq<ToolEntryView>,
    i2: int,
)
    requires
        forall|a: int, b: int| 0 <= a < ts1.len() && 0 <= b < ts1.len() && a != b ==> #[trigger] ts1[a].original_name != #[trigger] ts1[b].original_name,
        forall|a: int, b: int| 0 <= a < ts2.len() && 0 <= b < ts2.len() && a != b ==> #[trigger] ts2[a].original_name != #[trigger] ts2[b].original_name,
        0 <= i1 < ts1.len(),
        0 <= i2 < ts2.len(),
        s1 != s2,
        first_index(s1, '/') < 0,
        first_index(s2, '/') < 0,
        ts1[i1].original_name == ts2[i2].original_name,
        first_index(ts1[i1].original_name, '/') < 0,
        !m.aliases.contains_key(ts1[i1].original_name),
        !m.collisions.contains_key(ts1[i1].original_name),
        !m.tools.contains_key(ts1[i1].original_name),
        !m.display_aliases.contains_key(ts1[i1].original_name),
    ensures
        ({
            let o = ts1[i1].original_name;
            let m2 = spec_register(spec_register(m, s1, s1, ts1), s2, s2, ts2);
            &&& spec_lookup(m2, o) is None
            &&& spec_lookup(m2, spec_qualified_name(s1, o)) == Some(placed(ts1[i1], s1))
            &&& spec_lookup(m2, spec_qualified_name(s2, o)) == Some(placed(ts2[i2], s2))
        }),
{
    let o = ts1[i1].original_name;
    let m1 = spec_register(m, s1, s1, ts1);
    lemma_register_alias_of(m, s1, ts1, i1);
    lemma_register_alias_of(m1, s2, ts2, i2);
    lemma_register_all_tools(m, s1, true, ts1);
    lemma_register_all_tools(m1, s2, true, ts2);
    assert forall|k: Seq<char>| qualified_names(s1, ts1).contains(k) implies k != o by {
        let j = choose|j: int| 0 <= j < ts1.len() && qualified_names(s1, ts1)[j] == k;
        lemma_bare_not_qualified(s1, ts1[j].original_name, o);
    }
    assert forall|k: Seq<char>| qualified_names(s2, ts2).contains(k) implies k != o by {
        let j = choose|j: int| 0 <= j < ts2.len() && qualified_names(s2, ts2)[j] == k;
        lemma_bare_not_qualified(s2, ts2[j].original_name, o);
    }
    let q1 = spec_qualified_name(s1, o);
    assert(!qualified_names(s2, ts2).contains(q1)) by {
        if qualified_names(s2, ts2).contains(q1) {
            let j = choose|j: int| 0 <= j < ts2.len() && qualified_names(s2, ts2)[j] == q1;
            lemma_qualified_servers_disjoint(s1, s2, o, ts2[j].original_name);
        }
    }
    assert(m1.tools.contains_key(q1));
}

/// Law: a bare name with a collision on record stays unresolved when yet
/// another server registers a tool under it (tool names distinct, bare
/// names managed, the bare name without `/` and held by no tool or display
/// alias): a lookup by the bare name finds nothing, and the collision stays
/// on record.
pub proof fn lemma_collided_name_stays_hidden(m: RegistryModel, server: Seq<char>, ts: Seq<ToolEntryView>, i: int)
    requires
        forall|a: int, b: int| 0 <= a < ts.len() && 0 <= b < ts.len() && a != b ==> #[trigger] ts[a].original_name != #[trigger] ts[b].original_name,
        0 <= i < ts.len(),
        first_index(ts[i].original_name, '/') < 0,
        m.collisions.contains_key(ts[i].original_name),
        !m.aliases.contains_key(ts[i].original_name),
        !m.tools.contains_key(ts[i].original_name),
        !m.display_aliases.contains_key(ts[i].original_name),
    ensures
        spec_lookup(spec_register(m, server, server, ts), ts[i].original_name) is None,
        spec_register(m, server, server, ts).collisions.contains_key(ts[i].original_name),
{
    let o = ts[i].original_name;
    lemma_register_alias_of(m, server, ts, i);
    lemma_register_all_tools(m, server, true, ts);
    assert forall|k: Seq<char>| qualified_names(server, ts).contains(k) implies k != o by {
        let j = choose|j: int| 0 <= j < ts.len() && qualified_names(server, ts)[j] == k;
        lemma_bare_not_qualified(server, ts[j].original_name, o);
    }
}

/// Two servers without `/` in their names never share a qualified name.
proof fn lemma_qualified_servers_disjoint(s1: Seq<char>, s2: Seq<char>, a: Seq<char>, b: Seq<char>)
    requires
        first_index(s1, '/') < 0,
        first_index(s2, '/') < 0,
        s1 != s2,
    ensures
        spec_qualified_name(s1, a) != spec_qualified_name(s2, b),
{
    lemma_after_slash_qualified(s1, a);
    lemma_after_slash_qualified(s2, b);
    if spec_qualified_name(s1, a) == spec_qualified_name(s2, b) {
        assert(spec_qualified_name(s1, a).take(s1.len() as int) =~= s1);
        assert(spec_qualified_name(s2, b).take(s2.len() as int) =~= s2);
    }
}

/// Registering a list is registering its first `n` tools, then the rest.
proof fn lemma_register_all_extend(m: RegistryModel, server: Seq<char>, bare: bool, ts: Seq<ToolEntryView>, n: int)
    requires
        0 <= n <= ts.len(),
    ensures
        register_all(m, server, bare, ts) == register_all(register_all(m, server, bare, ts.take(n)), server, bare, ts.skip(n)),
    decreases ts.len() - n,
{
    if n < ts.len() {
        lemma_register_all_extend(m, server, bare, ts, n + 1);
        let m_n = register_all(m, server, bare, ts.take(n));
        assert(ts.take(n + 1).drop_last() =~= ts.take(n));
        lemma_register_all_prepend(m_n, server, bare, ts[n], ts.skip(n + 1));
        assert(seq![ts[n]] + ts.skip(n + 1) =~= ts.skip(n));
        assert(register_all(m_n, server, bare, seq![ts[n]]) == register_one(m_n, server, bare, ts[n])) by {
            assert(seq![ts[n]].drop_last() =~= Seq::<ToolEntryView>::empty());
            assert(register_all(m_n, server, bare, Seq::<ToolEntryView>::empty()) == m_n);
            assert(seq![ts[n]].last() == ts[n]);
        }
    } else {
        assert(ts.take(n) =~= ts);
        assert(ts.skip(n) =~= Seq::<ToolEntryView>::empty());
    }
}

/// Registering `t` then `rest` is registering `[t] + rest`.
proof fn lemma_register_all_prepend(m: RegistryModel, server: Seq<char>, bare: bool, t: ToolEntryView, rest: Seq<ToolEntryView>)
    ensures
        register_all(m, server, bare, seq![t] + rest) == register_all(register_all(m, server, bare, seq![t]), server, bare, rest),
    decreases rest.len(),
{
    if rest.len() > 0 {
        lemma_register_all_prepend(m, server, bare, t, rest.drop_last());
        assert((seq![t] + rest).drop_last() =~= seq![t] + rest.drop_last());
    } else {
        assert(seq![t] + rest =~= seq![t]);
    }
}

/// Removing the tools named in `qs` removes exactly those names.
proof fn lemma_drop_all_tools(m: RegistryModel, qs: Seq<Seq<char>>)
    ensures
        forall|k: Seq<char>| #[trigger] drop_all(m, qs).tools.contains_key(k) <==> m.tools.contains_key(k) && !qs.contains(k),
        forall|k: Seq<char>| #[trigger] drop_all(m, qs).tools.contains_key(k) ==> drop_all(m, qs).tools[k] == m.tools[k],
        drop_all(m, qs).server_tools == m.server_tools,
        drop_all(m, qs).display_aliases == m.display_aliases,
    decreases qs.len(),
{
    if qs.len() > 0 {
        lemma_drop_all_tools(m, qs.drop_last());
        assert forall|k: Seq<char>| qs.contains(k) <==> qs.drop_last().contains(k) || k == qs.last() by {
            if qs.contains(k) {
                let j = choose|j: int| 0 <= j < qs.len() && qs[j] == k;
                if j < qs.len() - 1 {
                    assert(qs.drop_last()[j] == k);
                }
            }
            if qs.drop_last().contains(k) {
                let j = choose|j: int| 0 <= j < qs.len() - 1 && qs.drop_last()[j] == k;
                assert(qs[j] == k);
            }
            if k == qs.last() {
                assert(qs[qs.len() - 1] == k);
            }
        }
    }
}

/// Restoring aliases leaves the tools, lists and display aliases alone.
proof fn lemma_restore_all_frame(m: RegistryModel, qs: Seq<Seq<char>>)
    ensures
        restore_all(m, qs).tools == m.tools,
        restore_all(m, qs).server_tools == m.server_tools,
        restore_all(m, qs).display_aliases == m.display_aliases,
    decreases qs.len(),
{
    if qs.len() > 0 {
        lemma_restore_all_frame(m, qs.drop_last());
    }
}

/// Law: unregistering a server with a tool list removes the list and
/// exactly the tools named in it; every other tool stays as it was.
pub proof fn lemma_unregister_removes(m: RegistryModel, server: Seq<char>)
    requires
        pair_names_distinct(m.server_tools),
        pair_get(m.server_tools, server) is Some,
    ensures
        ({
            let list = pair_get(m.server_tools, server)->0;
            let r = spec_unregister(m, server);
            &&& pair_get(r.server_tools, server) is None
            &&& forall|k: Seq<char>| #[trigger] r.tools.contains_key(k) <==> m.tools.contains_key(k) && !list.contains(k)
            &&& forall|k: Seq<char>| #[trigger] r.tools.contains_key(k) ==> r.tools[k] == m.tools[k]
        }),
{
    let list = pair_get(m.server_tools, server)->0;
    let m1 = RegistryModel {
        tools: m.tools,
        server_tools: drop_pair(m.server_tools, server),
        aliases: m.aliases,
        collisions: m.collisions,
        display_aliases: m.display_aliases,
    };
    lemma_drop_all_tools(m1, list);
    lemma_restore_all_frame(drop_all(m1, list), list);
    let p = m.server_tools;
    let pos = crate::table::pair_pos(p, server);
    let d = p.remove(pos);
    assert(!crate::table::pair_has(d, server)) by {
        if crate::table::pair_has(d, server) {
            let j = crate::table::pair_pos(d, server);
            let j1 = if j < pos { j } else { j + 1 };
            assert(d[j] == p[j1]);
        }
    }
}

/// The names listed for `server`; none when it has no list.
pub open spec fn listed_for(p: Seq<(Seq<char>, Seq<Seq<char>>)>, server: Seq<char>) -> Seq<Seq<char>> {
    match pair_get(p, server) {
        Some(l) => l,
        None => Seq::empty(),
    }
}

/// Law: rebuilding a server's tools (shown under its own name, tool names
/// distinct) makes each new tool found by its qualified name, lists
/// exactly the new names for the server, and leaves none of its former
/// tools registered unless the new list names it again.
pub proof fn lemma_rebuild_replaces(m: RegistryModel, server: Seq<char>, ts: Seq<ToolEntryView>)
    requires
        pair_names_distinct(m.server_tools),
        forall|i: int, j: int| 0 <= i < ts.len() && 0 <= j < ts.len() && i != j ==> #[trigger] ts[i].original_name != #[trigger] ts[j].original_name,
    ensures
        ({
            let r = spec_rebuild(m, server, server, ts);
            &&& forall|i: int| 0 <= i < ts.len() ==> spec_lookup(r, spec_qualified_name(server, #[trigger] ts[i].original_name))
                == Some(placed(ts[i], server))
            &&& pair_get(r.server_tools, server) == Some(qualified_names(server, ts))
            &&& forall|k: Seq<char>| #[trigger] listed_for(m.server_tools, server).contains(k)
                && !qualified_names(server, ts).contains(k) ==> !r.tools.contains_key(k)
        }),
{
    let m1 = RegistryModel {
        tools: m.tools,
        server_tools: m.server_tools,
        aliases: m.aliases,
        collisions: m.collisions,
        display_aliases: keep_other_servers(m.display_aliases, server),
    };
    let u = spec_unregister(m1, server);
    lemma_register_then_lookup(u, server, server, ts);
    lemma_register_all_tools(u, server, true, ts);
    if pair_get(m1.server_tools, server) is Some {
        lemma_unregister_removes(m1, server);
    }
    let ra = register_all(u, server, true, ts);
    let p = ra.server_tools;
    let put = put_pair(p, server, qualified_names(server, ts));
    assert(!crate::table::pair_has(p, server));
    assert(pair_get(put, server) == Some(qualified_names(server, ts))) by {
        assert(put[p.len() as int].0 == server);
        let j = crate::table::pair_pos(put, server);
        if j < p.len() {
            assert(put[j] == p[j]);
        }
    }
}

/// Filtering out `q` after appending `x`.
proof fn lemma_others_push(s: Seq<Seq<char>>, x: Seq<char>, q: Seq<char>)
    ensures
        others(s.push(x), q) == if x != q { others(s, q).push(x) } else { others(s, q) },
        others(Seq::<Seq<char>>::empty(), q) == Seq::<Seq<char>>::empty(),
{
    reveal_with_fuel(Seq::filter, 2);
    assert(s.push(x).drop_last() =~= s);
    assert(s.push(x).last() == x);
}

/// The empty registry.
pub open spec fn empty_model() -> RegistryModel {
    RegistryModel {
        tools: Map::empty(),
        server_tools: Seq::empty(),
        aliases: Map::empty(),
        collisions: Map::empty(),
        display_aliases: Map::empty(),
    }
}

/// Law: when two servers (names without `/`) each register one tool under
/// the same bare name (without `/`) into an empty registry, unregistering
/// the second gives the bare name back to the first server's tool, and
/// the second's qualified name no longer finds anything.
pub proof fn lemma_unregister_restores_alias(s1: Seq<char>, t1: ToolEntryView, s2: Seq<char>, t2: ToolEntryView)
    requires
        s1 != s2,
        first_index(s1, '/') < 0,
        first_index(s2, '/') < 0,
        t1.original_name == t2.original_name,
        first_index(t1.original_name, '/') < 0,
    ensures
        ({
            let m2 = spec_register(spec_register(empty_model(), s1, s1, seq![t1]), s2, s2, seq![t2]);
            let m3 = spec_unregister(m2, s2);
            &&& spec_lookup(m3, t1.original_name) == Some(placed(t1, s1))
            &&& spec_lookup(m3, spec_qualified_name(s2, t2.original_name)) is None
        }),
{
    let o = t1.original_name;
    let q1 = spec_qualified_name(s1, o);
    let q2 = spec_qualified_name(s2, o);
    let e = empty_model();
    assert(seq![t1].drop_last() =~= Seq::<ToolEntryView>::empty());
    assert(seq![t2].drop_last() =~= Seq::<ToolEntryView>::empty());
    let a1 = register_all(e, s1, true, seq![t1]);
    assert(register_all(e, s1, true, Seq::<ToolEntryView>::empty()) == e);
    assert(seq![t1].last() == t1);
    assert(a1 == register_one(e, s1, true, t1));
    assert(qualified_names(s1, seq![t1]) =~= seq![q1]);
    assert(!crate::table::pair_has(e.server_tools, s1));
    let m1 = spec_register(e, s1, s1, seq![t1]);
    assert(m1.server_tools == seq![(s1, seq![q1])]);
    let a2 = register_all(m1, s2, true, seq![t2]);
    assert(register_all(m1, s2, true, Seq::<ToolEntryView>::empty()) == m1);
    assert(seq![t2].last() == t2);
    assert(a2 == register_one(m1, s2, true, t2));
    assert(qualified_names(s2, seq![t2]) =~= seq![q2]);
    assert(!crate::table::pair_has(m1.server_tools, s2)) by {
        if crate::table::pair_has(m1.server_tools, s2) {
            let j = crate::table::pair_pos(m1.server_tools, s2);
            assert(j == 0);
        }
    }
    let m2 = spec_register(m1, s2, s2, seq![t2]);
    let p2 = seq![(s1, seq![q1]), (s2, seq![q2])];
    assert(m2.server_tools =~= p2);
    assert(pair_names_distinct(p2));
    lemma_pair_at(p2, 1);
    assert(pair_get(m2.server_tools, s2) == Some(seq![q2]));
    assert(p2.remove(1) =~= seq![(s1, seq![q1])]);
    let m1x = RegistryModel {
        tools: m2.tools,
        server_tools: seq![(s1, seq![q1])],
        aliases: m2.aliases,
        collisions: m2.collisions,
        display_aliases: m2.display_aliases,
    };
    lemma_qualified_servers_disjoint(s1, s2, o, o);
    lemma_bare_not_qualified(s1, o, o);
    lemma_bare_not_qualified(s2, o, o);
    assert(!m2.aliases.contains_key(o));
    assert(m2.collisions[o] == seq![q2]);
    assert(seq![q2].drop_last() =~= Seq::<Seq<char>>::empty());
    assert(seq![q2] =~= Seq::<Seq<char>>::empty().push(q2));
    lemma_others_push(Seq::<Seq<char>>::empty(), q2, q2);
    assert(others(seq![q2], q2) =~= Seq::<Seq<char>>::empty());
    let md = drop_one(m1x, q2);
    assert(drop_all(m1x, Seq::<Seq<char>>::empty()) == m1x);
    assert(seq![q2].last() == q2);
    assert(drop_all(m1x, seq![q2]) == md);
    assert(!md.aliases.contains_key(o));
    lemma_after_slash_qualified(s1, o);
    lemma_after_slash_qualified(s2, o);
    let listed = all_listed(md.server_tools);
    assert(md.server_tools == seq![(s1, seq![q1])]);
    assert(seq![(s1, seq![q1])].drop_last() =~= Seq::<(Seq<char>, Seq<Seq<char>>)>::empty());
    assert(all_listed(Seq::<(Seq<char>, Seq<Seq<char>>)>::empty()) =~= Seq::<Seq<char>>::empty());
    assert(seq![(s1, seq![q1])].last().1 == seq![q1]);
    assert(listed =~= seq![q1]);
    assert(seq![q1].drop_last() =~= Seq::<Seq<char>>::empty());
    assert(owners(md.server_tools, o) =~= seq![q1]) by {
        reveal_with_fuel(Seq::filter, 2);
        assert(seq![q1].drop_last() =~= Seq::<Seq<char>>::empty());
        assert(seq![q1].last() == q1);
    }
    let m3 = restore_one(md, q2);
    assert(restore_all(md, Seq::<Seq<char>>::empty()) == md);
    assert(restore_all(md, seq![q2]) == m3);
    assert(m3.aliases[o] == q1);
    assert(m3.tools.contains_key(q1));
    assert(!m3.tools.contains_key(o));
    assert(!m3.tools.contains_key(q2));
    assert(!m3.display_aliases.contains_key(q2));
    assert(!m3.aliases.contains_key(q2));
}

/// Every backend's tools, indexed by name.
pub struct ToolRegistry {
    tools: NameTable<ToolEntry>,
    server_tools: NameTable<Vec<String>>,
    aliases: NameTable<String>,
    collisions: NameTable<Vec<String>>,
    display_aliases: NameTable<String>,
    /// Per-profile call counts.
    pub usage: UsageTracker,
}

impl ToolRegistry {
    /// The registry's contents.
    pub closed spec fn model(&self) -> RegistryModel {
        RegistryModel {
            tools: self.tools.map(),
            server_tools: self.server_tools.pairs(),
            aliases: self.aliases.map(),
            collisions: self.collisions.map(),
            display_aliases: self.display_aliases.map(),
        }
    }

    /// Well-formed: each table keeps its names distinct, and each tool is
    /// stored under its own qualified name.
    pub closed spec fn wf(&self) -> bool {
        &&& self.tools.wf()
        &&& self.server_tools.wf()
        &&& self.aliases.wf()
        &&& self.collisions.wf()
        &&& self.display_aliases.wf()
        &&& forall|q: Seq<char>| #[trigger] self.tools.map().contains_key(q) ==> self.tools.map()[q].qualified_name == q
    }

    /// The call records of the registry's usage tracker.
    pub closed spec fn usage_records(&self) -> Seq<UsageEntry> {
        self.usage.entries()
    }

    /// An empty registry.
    pub fn new() -> (r: ToolRegistry)
        ensures
            r.wf(),
            r.model().tools.is_empty(),
            r.model().server_tools.len() == 0,
            r.model().aliases.is_empty(),
            r.model().collisions.is_empty(),
            r.model().display_aliases.is_empty(),
            r.usage_records() == Seq::<UsageEntry>::empty(),
    {
        ToolRegistry {
            tools: NameTable::new(),
            server_tools: NameTable::new(),
            aliases: NameTable::new(),
            collisions: NameTable::new(),
            display_aliases: NameTable::new(),
            usage: UsageTracker::new(),
        }
    }

    /// Registers the tools of `server` under its own name.
    pub fn register_tools(&mut self, server: &str, tools: Vec<ToolEntry>)
        requires
            old(self).wf(),
        ensures
            final(self).wf(),
            final(self).model() == spec_register(old(self).model(), server@, server@, tools.deep_view()),
    {
        self.register_tools_with_prefix(server, server, tools);
    }

    /// Registers the tools of `server`, shown under `display_prefix`; bare
    /// names are left alone when the prefix is set and differs from the
    /// server's name, since such tools are only reached as `prefix/tool`.
    fn register_tools_with_prefix(&mut self, server: &str, display_prefix: &str, tools: Vec<ToolEntry>)
        requires
            old(self).wf(),
        ensures
            final(self).wf(),
            final(self).model() == spec_register(old(self).model(), server@, display_prefix@, tools.deep_view()),
    {
        let has_prefix = !display_prefix.is_empty() && !str_eq(display_prefix, server);
        let ghost bare = !has_prefix;
        let ghost ts = tools.deep_view();
        let ghost m0 = self.model();
        let ghost items = tools@;
        assert(ts =~= items.map_values(|t: ToolEntry| t.deep_view()));
        let mut list: Vec<String> = Vec::new();
        assert(ts.take(0) =~= Seq::<ToolEntryView>::empty());
        assert(list.deep_view() =~= qualified_names(server@, ts.take(0)));
        for tool in it: tools.into_iter()
            invariant
                it.seq() == items,
                ts == items.map_values(|t: ToolEntry| t.deep_view()),
                self.wf(),
                bare == !has_prefix,
                bare == !(display_prefix@.len() > 0 && display_prefix@ != server@),
                self.model() == register_all(m0, server@, bare, ts.take(it.index() as int)),
                list.deep_view() == qualified_names(server@, ts.take(it.index() as int)),
        {
            let ghost i = it.index() as int;
            let ghost before = self.model();
            let ghost t = ts[i];
            assert(tool.deep_view() == t);
            assert(ts.take(i + 1).drop_last() =~= ts.take(i));
            assert(ts.take(i + 1).last() == t);
            let mut tool = tool;
            let q = qualified_tool_name(server, tool.original_name.as_str());
            if !has_prefix {
                if self.aliases.contains_key(tool.original_name.as_str())
                    || self.collisions.contains_key(tool.original_name.as_str()) {
                    let mut c = match self.collisions.remove(tool.original_name.as_str()) {
                        Some(v) => v,
                        None => Vec::new(),
                    };
                    let ghost c0 = c.deep_view();
                    c.push(q.clone());
                    assert(c.deep_view() =~= c0.push(q@));
                    assert(c.deep_view() == collided(before.collisions, t.original_name, q@));
                    self.collisions.insert(tool.original_name.clone(), c);
                    self.aliases.remove(tool.original_name.as_str());
                } else {
                    self.aliases.insert(tool.original_name.clone(), q.clone());
                }
            }
            tool.qualified_name = q.clone();
            tool.server_name = String::from_str(server);
            assert(tool.deep_view() == placed(t, server@));
            self.tools.insert(q.clone(), tool);
            let ghost l0 = list.deep_view();
            list.push(q);
            assert(list.deep_view() =~= l0.push(spec_qualified_name(server@, t.original_name)));
            assert(qualified_names(server@, ts.take(i + 1)) =~= qualified_names(server@, ts.take(i)).push(
                spec_qualified_name(server@, t.original_name),
            ));
            assert(self.model().collisions =~= register_one(before, server@, bare, t).collisions);
            assert(self.model().aliases =~= register_one(before, server@, bare, t).aliases);
            assert(self.model() == register_one(before, server@, bare, t));
        }
        assert(ts.take(ts.len() as int) =~= ts);
        self.server_tools.insert(String::from_str(server), list);
    }

    /// The one listed qualified name whose bare part is `o`, when there is
    /// exactly one.
    fn sole_owner(&self, o: &str) -> (r: Option<String>)
        requires
            self.wf(),
        ensures
            match r {
                Some(q) => owners(self.model().server_tools, o@).len() == 1 && q@ == owners(self.model().server_tools, o@)[0],
                None => owners(self.model().server_tools, o@).len() != 1,
            },
    {
        let ghost p = self.server_tools.pairs();
        let ghost pred = |q: Seq<char>| after_slash(q) == Some(o@);
        let mut found: Option<String> = None;
        let mut count: usize = 0;
        let mut i: usize = 0;
        proof {
            lemma_pairs_distinct(self.server_tools.entries@);
            assert(p.take(0) =~= Seq::<(Seq<char>, Seq<Seq<char>>)>::empty());
            assert(all_listed(p.take(0)).filter(pred) =~= Seq::<Seq<char>>::empty());
        }
        while i < self.server_tools.entries.len()
            invariant
                p == self.server_tools.pairs(),
                p.len() == self.server_tools.entries.len(),
                pred == (|q: Seq<char>| after_slash(q) == Some(o@)),
                i <= self.server_tools.entries.len(),
                count <= 2,
                count == if all_listed(p.take(i as int)).filter(pred).len() >= 2 {
                    2
                } else {
                    all_listed(p.take(i as int)).filter(pred).len()
                },
                count >= 1 ==> found is Some && found->0@ == all_listed(p.take(i as int)).filter(pred)[0],
            decreases self.server_tools.entries.len() - i,
        {
            let list = &self.server_tools.entries[i].1;
            let ghost base = all_listed(p.take(i as int));
            let ghost ls = list.deep_view();
            assert(p[i as int].1 == ls);
            assert(p.take(i + 1).drop_last() =~= p.take(i as int));
            assert(all_listed(p.take(i + 1)) == base + ls);
            let mut j: usize = 0;
            assert(base + ls.take(0) =~= base);
            while j < list.len()
                invariant
                    ls == list.deep_view(),
                    pred == (|q: Seq<char>| after_slash(q) == Some(o@)),
                    j <= list.len(),
                    count <= 2,
                    count == if (base + ls.take(j as int)).filter(pred).len() >= 2 {
                        2
                    } else {
                        (base + ls.take(j as int)).filter(pred).len()
                    },
                    count >= 1 ==> found is Some && found->0@ == (base + ls.take(j as int)).filter(pred)[0],
                decreases list.len() - j,
            {
                let ghost before = base + ls.take(j as int);
                let ghost after = base + ls.take(j + 1);
                assert(after =~= before.push(ls[j as int]));
                proof {
                    before.lemma_filter_push(ls[j as int], pred);
                }
                assert(ls[j as int] == list[j as int]@);
                let q = &list[j];
                let v = to_chars(q.as_str());
                let mut hit = false;
                if let Some(s) = find_char(&v, '/') {
                    let rest = crate::text::from_char_range(&v, s + 1, v.len());
                    assert(rest@ =~= q@.skip(s + 1));
                    hit = str_eq(rest.as_str(), o);
                }
                assert(hit == pred(q@));
                if hit {
                    assert(after.filter(pred) == before.filter(pred).push(q@));
                    if count == 0 {
                        found = Some(q.clone());
                    }
                    if count < 2 {
                        count = count + 1;
                    }
                } else {
                    assert(after.filter(pred) == before.filter(pred));
                }
                j = j + 1;
            }
            assert(ls.take(list.len() as int) =~= ls);
            i = i + 1;
        }
        assert(p.take(p.len() as int) =~= p);
        if count == 1 {
            found
        } else {
            None
        }
    }

    /// Removes `server`'s tool list and its tools; a bare name that only
    /// one listed tool still has gets its alias back.
    pub fn unregister_server(&mut self, server: &str)
        requires
            old(self).wf(),
        ensures
            final(self).wf(),
            final(self).model() == spec_unregister(old(self).model(), server@),
    {
        let ghost m0 = self.model();
        let tool_list = match self.server_tools.remove(server) {
            Some(l) => l,
            None => {
                assert(self.model().server_tools =~= m0.server_tools);
                return;
            },
        };
        let ghost ls = tool_list.deep_view();
        let ghost m1 = self.model();
        assert(m1 == RegistryModel {
            tools: m0.tools,
            server_tools: drop_pair(m0.server_tools, server@),
            aliases: m0.aliases,
            collisions: m0.collisions,
            display_aliases: m0.display_aliases,
        });
        let mut i: usize = 0;
        assert(ls.take(0) =~= Seq::<Seq<char>>::empty());
        while i < tool_list.len()
            invariant
                ls == tool_list.deep_view(),
                i <= tool_list.len(),
                self.wf(),
                self.model() == drop_all(m1, ls.take(i as int)),
            decreases tool_list.len() - i,
        {
            let ghost before = self.model();
            let q = &tool_list[i];
            assert(ls[i as int] == q@);
            assert(ls.take(i + 1).drop_last() =~= ls.take(i as int));
            if let Some(tool) = self.tools.remove(q.as_str()) {
                let o = &tool.original_name;
                let alias_hit = match self.aliases.get(o.as_str()) {
                    Some(a) => str_eq(a.as_str(), q.as_str()),
                    None => false,
                };
                if alias_hit {
                    self.aliases.remove(o.as_str());
                }
                if let Some(c) = self.collisions.remove(o.as_str()) {
                    let rest = without_name(&c, q.as_str());
                    assert(rest.deep_view().len() == rest.len());
                    if rest.len() > 0 {
                        self.collisions.insert(o.clone(), rest);
                    }
                }
                assert(self.model().tools =~= drop_one(before, q@).tools);
                assert(self.model().aliases =~= drop_one(before, q@).aliases);
                assert(self.model().collisions =~= drop_one(before, q@).collisions);
                assert(self.model().server_tools == drop_one(before, q@).server_tools);
                assert(self.model().display_aliases == drop_one(before, q@).display_aliases);
            } else {
                assert(self.model().tools =~= before.tools);
            }
            assert(self.model() == drop_one(before, q@));
            i = i + 1;
        }
        assert(ls.take(ls.len() as int) =~= ls);
        let ghost md = self.model();
        let mut k: usize = 0;
        assert(ls.take(0) =~= Seq::<Seq<char>>::empty());
        while k < tool_list.len()
            invariant
                ls == tool_list.deep_view(),
                k <= tool_list.len(),
                self.wf(),
                self.model() == restore_all(md, ls.take(k as int)),
                self.model().server_tools == md.server_tools,
            decreases tool_list.len() - k,
        {
            let ghost before = self.model();
            let q = &tool_list[k];
            assert(ls[k as int] == q@);
            assert(ls.take(k + 1).drop_last() =~= ls.take(k as int));
            let v = to_chars(q.as_str());
            if let Some(s) = find_char(&v, '/') {
                let o = crate::text::from_char_range(&v, s + 1, v.len());
                assert(o@ =~= q@.skip(s + 1));
                if !self.aliases.contains_key(o.as_str()) {
                    if let Some(owner) = self.sole_owner(o.as_str()) {
                        self.aliases.insert(o.clone(), owner);
                        self.collisions.remove(o.as_str());
                    }
                }
            }
            assert(self.model() == restore_one(before, q@));
            k = k + 1;
        }
        assert(ls.take(ls.len() as int) =~= ls);
    }

    /// Drops the display aliases whose canonical name begins with `server/`.
    fn drop_display_aliases_of(&mut self, server: &str)
        requires
            old(self).wf(),
        ensures
            final(self).wf(),
            final(self).model() == (RegistryModel {
                display_aliases: keep_other_servers(old(self).model().display_aliases, server@),
                ..old(self).model()
            }),
    {
        let ghost old_entries = self.display_aliases.entries@;
        let ghost old_map = self.display_aliases.map();
        let ghost lead = server@ + seq!['/'];
        let mut slash = String::from_str(server);
        slash.append("/");
        proof {
            reveal_strlit("/");
            assert(slash@ =~= lead);
        }
        let mut kept: NameTable<String> = NameTable::new();
        let mut i: usize = 0;
        while i < self.display_aliases.entries.len()
            invariant
                old_entries == self.display_aliases.entries@,
                old_map == self.display_aliases.map(),
                self.display_aliases.wf(),
                slash@ == lead,
                i <= old_entries.len(),
                kept.wf(),
                forall|j: int| 0 <= j < kept.pairs().len() ==> crate::table::has_name(old_entries.take(i as int), #[trigger] kept.pairs()[j].0),
                kept.map() == Map::new(
                    |k: Seq<char>| crate::table::has_name(old_entries.take(i as int), k) && old_map.contains_key(k) && !lead.is_prefix_of(old_map[k]),
                    |k: Seq<char>| old_map[k],
                ),
            decreases old_entries.len() - i,
        {
            let ghost before = kept.map();
            let ghost ki = old_entries[i as int].0@;
            let ghost vi = old_entries[i as int].1@;
            proof {
                crate::table::lemma_view_at(old_entries, i as int);
            }
            let keep = !crate::text::starts_with(self.display_aliases.entries[i].1.as_str(), slash.as_str());
            assert forall|k: Seq<char>| crate::table::has_name(old_entries.take(i + 1), k) <==> (crate::table::has_name(old_entries.take(i as int), k) || k == ki) by {
                if crate::table::has_name(old_entries.take(i + 1), k) {
                    let j = crate::table::name_index(old_entries.take(i + 1), k);
                    if j < i {
                        assert(old_entries.take(i as int)[j] == old_entries.take(i + 1)[j]);
                    }
                }
                if crate::table::has_name(old_entries.take(i as int), k) {
                    let j = crate::table::name_index(old_entries.take(i as int), k);
                    assert(old_entries.take(i as int)[j] == old_entries.take(i + 1)[j]);
                }
                if k == ki {
                    assert(old_entries.take(i + 1)[i as int].0@ == k);
                }
            }
            assert(!crate::table::has_name(old_entries.take(i as int), ki)) by {
                if crate::table::has_name(old_entries.take(i as int), ki) {
                    let j = crate::table::name_index(old_entries.take(i as int), ki);
                    assert(old_entries[j].0@ == old_entries[i as int].0@);
                }
            }
            if keep {
                let k = self.display_aliases.entries[i].0.clone();
                let v = self.display_aliases.entries[i].1.clone();
                assert(!crate::table::pair_has(kept.pairs(), ki)) by {
                    if crate::table::pair_has(kept.pairs(), ki) {
                        let j = crate::table::pair_pos(kept.pairs(), ki);
                        assert(crate::table::has_name(old_entries.take(i as int), kept.pairs()[j].0));
                    }
                }
                let ghost kp = kept.pairs();
                kept.insert(k, v);
                assert(kept.pairs() == kp.push((ki, vi)));
            }
            assert(kept.map() =~= Map::new(
                |k: Seq<char>| crate::table::has_name(old_entries.take(i + 1), k) && old_map.contains_key(k) && !lead.is_prefix_of(old_map[k]),
                |k: Seq<char>| old_map[k],
            ));
            i = i + 1;
        }
        assert(old_entries.take(old_entries.len() as int) =~= old_entries);
        assert(kept.map() =~= keep_other_servers(old_map, server@)) by {
            assert forall|k: Seq<char>| old_map.contains_key(k) implies crate::table::has_name(old_entries, k) by {}
        }
        self.display_aliases = kept;
    }

    /// Replaces `server`'s tools by `tools`, shown under `display_prefix`:
    /// its display aliases go, it is unregistered, then the new tools are
    /// registered.
    pub fn rebuild_for_server(&mut self, server: &str, display_prefix: &str, tools: Vec<ToolEntry>)
        requires
            old(self).wf(),
        ensures
            final(self).wf(),
            final(self).model() == spec_rebuild(old(self).model(), server@, display_prefix@, tools.deep_view()),
    {
        self.drop_display_aliases_of(server);
        self.unregister_server(server);
        self.register_tools_with_prefix(server, display_prefix, tools);
    }

    /// For a server shown under `display_prefix`, maps `prefix/tool` to
    /// each of its listed `server/tool` names.
    pub fn register_display_aliases(&mut self, server: &str, display_prefix: &str)
        requires
            old(self).wf(),
        ensures
            final(self).wf(),
            final(self).model() == spec_display_aliases(old(self).model(), server@, display_prefix@),
    {
        if str_eq(display_prefix, server) {
            return;
        }
        let ghost m0 = self.model();
        match self.server_tools.get(server) {
            None => {},
            Some(list) => {
                let ghost ls = list.deep_view();
                let mut i: usize = 0;
                assert(ls.take(0) =~= Seq::<Seq<char>>::empty());
                while i < list.len()
                    invariant
                        ls == list.deep_view(),
                        i <= list.len(),
                        self.display_aliases.wf(),
                        self.tools == old(self).tools,
                        self.server_tools == old(self).server_tools,
                        self.aliases == old(self).aliases,
                        self.collisions == old(self).collisions,
                        self.usage == old(self).usage,
                        self.model() == add_display_all(m0, display_prefix@, ls.take(i as int)),
                    decreases list.len() - i,
                {
                    let ghost before = self.model();
                    let q = &list[i];
                    assert(ls[i as int] == q@);
                    assert(ls.take(i + 1).drop_last() =~= ls.take(i as int));
                    let v = to_chars(q.as_str());
                    if let Some(s) = find_char(&v, '/') {
                        let o = crate::text::from_char_range(&v, s + 1, v.len());
                        assert(o@ =~= q@.skip(s + 1));
                        let name = qualified_tool_name(display_prefix, o.as_str());
                        self.display_aliases.insert(name, q.clone());
                    }
                    assert(self.model() == add_display_one(before, display_prefix@, q@));
                    i = i + 1;
                }
                assert(ls.take(ls.len() as int) =~= ls);
            },
        }
    }

    /// The registered tools of `server`'s list, in list order.
    pub fn list_tools_for_server(&self, server: &str) -> (r: Vec<&ToolEntry>)
        requires
            self.wf(),
        ensures
            r.deep_view() == match pair_get(self.model().server_tools, server@) {
                Some(list) => present(self.model().tools, list),
                None => Seq::<ToolEntryView>::empty(),
            },
    {
        let mut r: Vec<&ToolEntry> = Vec::new();
        match self.server_tools.get(server) {
            None => {
                assert(r.deep_view() =~= Seq::<ToolEntryView>::empty());
            },
            Some(list) => {
                let ghost ls = list.deep_view();
                let ghost tools = self.model().tools;
                let ghost pred = |q: Seq<char>| tools.contains_key(q);
                let mut i: usize = 0;
                assert(r.deep_view() =~= present(tools, ls.take(0)));
                while i < list.len()
                    invariant
                        ls == list.deep_view(),
                        tools == self.model().tools,
                        self.wf(),
                        pred == (|q: Seq<char>| tools.contains_key(q)),
                        i <= list.len(),
                        r.deep_view() == present(tools, ls.take(i as int)),
                    decreases list.len() - i,
                {
                    let ghost r0 = r.deep_view();
                    let q = &list[i];
                    assert(ls[i as int] == q@);
                    assert(ls.take(i + 1) =~= ls.take(i as int).push(q@));
                    proof {
                        ls.take(i as int).lemma_filter_push(q@, pred);
                    }
                    match self.tools.get(q.as_str()) {
                        Some(t) => {
                            r.push(t);
                            assert(r.deep_view() =~= r0.push(tools[q@]));
                            assert(present(tools, ls.take(i + 1)) =~= present(tools, ls.take(i as int)).push(tools[q@]));
                        },
                        None => {},
                    }
                    i = i + 1;
                }
                assert(ls.take(ls.len() as int) =~= ls);
            },
        }
        r
    }

    /// The first `max` tools in registration order (all of them when there
    /// are fewer), each once.
    pub fn list_tools(&self, max: usize) -> (r: Vec<&ToolEntry>)
        requires
            self.wf(),
        ensures
            r.len() == if max < self.model().tools.len() { max as nat } else { self.model().tools.len() },
            distinct_registered(r.deep_view(), self.model().tools),
            max >= self.model().tools.len() ==> forall|q: Seq<char>| #[trigger] self.model().tools.contains_key(q)
                ==> exists|i: int| 0 <= i < r.len() && r.deep_view()[i].qualified_name == q,
    {
        let ghost es = self.tools.entries@;
        let ghost tools = self.model().tools;
        proof {
            crate::table::lemma_view_len(es);
        }
        let n = self.tools.entries.len();
        let stop = if max < n { max } else { n };
        let mut r: Vec<&ToolEntry> = Vec::new();
        let mut i: usize = 0;
        while i < stop
            invariant
                es == self.tools.entries@,
                tools == self.model().tools,
                self.wf(),
                stop <= n == es.len(),
                i <= stop,
                r.len() == i,
                forall|j: int| 0 <= j < i ==> (#[trigger] r.deep_view()[j]) == es[j].1.deep_view(),
                forall|j: int| 0 <= j < i ==> r.deep_view()[j].qualified_name == es[j].0@,
            decreases stop - i,
        {
            let ghost r0 = r.deep_view();
            proof {
                crate::table::lemma_view_at(es, i as int);
            }
            r.push(&self.tools.entries[i].1);
            assert(r.deep_view() =~= r0.push(es[i as int].1.deep_view()));
            i = i + 1;
        }
        let ghost rv = r.deep_view();
        assert forall|a: int| 0 <= a < rv.len() implies tools.contains_key(#[trigger] rv[a].qualified_name) && tools[rv[a].qualified_name] == rv[a] by {
            crate::table::lemma_view_at(es, a);
        }
        assert forall|a: int, b: int| 0 <= a < rv.len() && 0 <= b < rv.len() && a != b implies #[trigger] rv[a].qualified_name != #[trigger] rv[b].qualified_name by {
            assert(es[a].0@ != es[b].0@);
        }
        assert forall|q: Seq<char>| max >= tools.len() && #[trigger] tools.contains_key(q) implies exists|a: int| 0 <= a < r.len() && rv[a].qualified_name == q by {
            let a = crate::table::name_index(es, q);
            assert(rv[a].qualified_name == q);
        }
        r
    }

    /// Every registered tool, each once.
    pub fn all_tools(&self) -> (r: Vec<&ToolEntry>)
        requires
            self.wf(),
        ensures
            r.len() == self.model().tools.len(),
            distinct_registered(r.deep_view(), self.model().tools),
            forall|q: Seq<char>| #[trigger] self.model().tools.contains_key(q)
                ==> exists|i: int| 0 <= i < r.len() && r.deep_view()[i].qualified_name == q,
    {
        let n = self.tools.len();
        self.list_tools(n)
    }

    /// Finds a tool by its qualified name, a display alias or its bare name.
    pub fn lookup(&self, name: &str) -> (r: Option<&ToolEntry>)
        requires
            self.wf(),
        ensures
            match r {
                Some(t) => spec_lookup(self.model(), name@) == Some(t.deep_view()),
                None => spec_lookup(self.model(), name@) is None,
            },
    {
        if let Some(t) = self.tools.get(name) {
            return Some(t);
        }
        if let Some(canonical) = self.display_aliases.get(name) {
            return self.tools.get(canonical.as_str());
        }
        if let Some(q) = self.aliases.get(name) {
            return self.tools.get(q.as_str());
        }
        None
    }

    /// The number of registered tools.
    pub fn tool_count(&self) -> (n: usize)
        requires
            self.wf(),
        ensures
            n == self.model().tools.len(),
    {
        self.tools.len()
    }

    /// The number of servers with a tool list.
    pub fn server_count(&self) -> (n: usize)
        requires
            self.wf(),
        ensures
            n == self.model().server_tools.len(),
    {
        self.server_tools.entries.len()
    }

    /// The part of a qualified name after its first `/`; a name without
    /// one is given back whole.
    pub fn strip_prefix(qualified_name: &str) -> (r: &str)
        ensures
            r@ == match after_slash(qualified_name@) {
                Some(rest) => rest,
                None => qualified_name@,
            },
    {
        let v = to_chars(qualified_name);
        match find_char(&v, '/') {
            Some(i) => {
                let r = qualified_name.substring_char(i + 1, v.len());
                assert(r@ =~= qualified_name@.skip(i + 1));
                r
            },
            None => qualified_name,
        }
    }
}

} // verus!
