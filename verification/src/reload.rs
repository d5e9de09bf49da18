//! What a configuration reload changes: servers added, removed, updated.
use std::collections::HashMap;
use vstd::prelude::*;
use vstd::string::*;
use crate::config::{Config, ServerConfig};

verus! {

/// The outcome of reloading the configuration.
#[derive(Debug, Clone)]
pub struct ReloadResult {
    /// Servers only the new configuration has.
    pub added: Vec<String>,
    /// Servers only the old configuration has.
    pub removed: Vec<String>,
    /// Servers whose command, URL or enabled flag changed.
    pub updated: Vec<String>,
    /// Servers whose command, URL and enabled flag are the same.
    pub unchanged: Vec<String>,
}

/// The text of an optional string.
pub open spec fn opt_text(o: Option<String>) -> Option<Seq<char>> {
    match o {
        Some(s) => Some(s@),
        None => None,
    }
}

/// The names of the servers.
pub open spec fn server_names(s: Seq<ServerConfig>) -> Seq<Seq<char>> {
    s.map_values(|c: ServerConfig| c.name@)
}

/// The names of `names` that `other` lacks, each once, in order of first
/// occurrence.
pub open spec fn names_absent(names: Seq<Seq<char>>, other: Seq<Seq<char>>) -> Seq<Seq<char>>
    decreases names.len(),
{
    if names.len() == 0 {
        Seq::empty()
    } else {
        let r = names_absent(names.drop_last(), other);
        if !other.contains(names.last()) && !r.contains(names.last()) {
            r.push(names.last())
        } else {
            r
        }
    }
}

/// The position of the first server named `name`, or -1.
pub open spec fn first_named(s: Seq<ServerConfig>, name: Seq<char>) -> int
    decreases s.len(),
{
    if s.len() == 0 {
        -1
    } else if s[0].name@ == name {
        0
    } else {
        let r = first_named(s.drop_first(), name);
        if r < 0 { -1 } else { r + 1 }
    }
}

/// Whether the two configurations of a server differ in any setting: those
/// that force a restart, or its name, sharing mode, pool size, priority,
/// tags or timeouts.
pub open spec fn server_changed(o: ServerConfig, n: ServerConfig) -> bool {
    ||| restart_needed(o, n)
    ||| o.name@ != n.name@
    ||| o.sharing@ != n.sharing@
    ||| o.pool_size != n.pool_size
    ||| o.priority != n.priority
    ||| texts(o.tags@) != texts(n.tags@)
    ||| o.timeouts.connect_secs != n.timeouts.connect_secs
    ||| o.timeouts.request_secs != n.timeouts.request_secs
    ||| o.timeouts.health_check_secs != n.timeouts.health_check_secs
}

/// The new servers that the old configuration also has, in the new order,
/// split into those that changed (`true`) and those that did not.
pub open spec fn kept_names(old: Seq<ServerConfig>, new: Seq<ServerConfig>, changed: bool) -> Seq<Seq<char>>
    decreases new.len(),
{
    if new.len() == 0 {
        Seq::empty()
    } else {
        let r = kept_names(old, new.drop_last(), changed);
        let n = new.last();
        let i = first_named(old, n.name@);
        if i >= 0 && server_changed(old[i], n) == changed {
            r.push(n.name@)
        } else {
            r
        }
    }
}

/// Whether two optional strings hold the same text.
fn opt_eq(a: &Option<String>, b: &Option<String>) -> (r: bool)
    ensures
        r == (opt_text(*a) == opt_text(*b)),
{
    match (a, b) {
        (Some(x), Some(y)) => *x == *y,
        (None, None) => true,
        _ => false,
    }
}

/// Whether `names` holds `name`.
fn holds_name(names: &Vec<String>, name: &String) -> (r: bool)
    ensures
        r == names@.map_values(|s: String| s@).contains(name@),
{
    let ghost v = names@.map_values(|s: String| s@);
    let mut i: usize = 0;
    while i < names.len()
        invariant
            i <= names.len(),
            v == names@.map_values(|s: String| s@),
            forall|j: int| 0 <= j < i ==> v[j] != name@,
        decreases names.len() - i,
    {
        if names[i] == *name {
            assert(v[i as int] == name@);
            return true;
        }
        i = i + 1;
    }
    false
}

/// The names of the servers, in order.
fn names_of(servers: &Vec<ServerConfig>) -> (r: Vec<String>)
    ensures
        r@.map_values(|s: String| s@) == server_names(servers@),
{
    let mut r: Vec<String> = Vec::new();
    let mut i: usize = 0;
    while i < servers.len()
        invariant
            i <= servers.len(),
            r@.map_values(|s: String| s@) == server_names(servers@).take(i as int),
        decreases servers.len() - i,
    {
        let ghost before = r@;
        r.push(servers[i].name.clone());
        assert(r@.map_values(|s: String| s@) =~= before.map_values(|s: String| s@).push(servers@[i as int].name@));
        assert(server_names(servers@).take(i + 1) =~= server_names(servers@).take(i as int).push(servers@[i as int].name@));
        i = i + 1;
    }
    assert(server_names(servers@).take(i as int) =~= server_names(servers@));
    r
}

/// The names of `names` that `other` lacks, each once.
fn absent_names(names: &Vec<String>, other: &Vec<String>) -> (r: Vec<String>)
    ensures
        r@.map_values(|s: String| s@) == names_absent(names@.map_values(|s: String| s@), other@.map_values(|s: String| s@)),
{
    let ghost nv = names@.map_values(|s: String| s@);
    let ghost ov = other@.map_values(|s: String| s@);
    let mut r: Vec<String> = Vec::new();
    let mut i: usize = 0;
    assert(nv.take(0) =~= Seq::<Seq<char>>::empty());
    assert(r@.map_values(|s: String| s@) =~= Seq::<Seq<char>>::empty());
    while i < names.len()
        invariant
            i <= names.len(),
            nv == names@.map_values(|s: String| s@),
            ov == other@.map_values(|s: String| s@),
            r@.map_values(|s: String| s@) == names_absent(nv.take(i as int), ov),
        decreases names.len() - i,
    {
        assert(nv.take(i + 1).drop_last() =~= nv.take(i as int));
        assert(nv.take(i + 1).last() == names[i as int]@);
        if !holds_name(other, &names[i]) && !holds_name(&r, &names[i]) {
            let ghost before = r@;
            r.push(names[i].clone());
            assert(r@.map_values(|s: String| s@) =~= before.map_values(|s: String| s@).push(names[i as int]@));
        }
        i = i + 1;
    }
    assert(nv.take(i as int) =~= nv);
    r
}

/// The first server named `name`, if any.
fn find_named(servers: &Vec<ServerConfig>, name: &String) -> (r: Option<usize>)
    ensures
        match r {
            Some(i) => i < servers.len() && i == first_named(servers@, name@),
            None => first_named(servers@, name@) < 0,
        },
{
    let mut i: usize = 0;
    assert(servers@.skip(0) =~= servers@);
    while i < servers.len()
        invariant
            i <= servers.len(),
            first_named(servers@, name@) == if first_named(servers@.skip(i as int), name@) < 0 {
                -1
            } else {
                first_named(servers@.skip(i as int), name@) + i
            },
        decreases servers.len() - i,
    {
        let ghost rest = servers@.skip(i as int);
        assert(rest[0] == servers@[i as int]);
        assert(rest.drop_first() =~= servers@.skip(i + 1));
        if servers[i].name == *name {
            return Some(i);
        }
        i = i + 1;
    }
    assert(servers@.skip(i as int) =~= Seq::<ServerConfig>::empty());
    None
}

/// The new servers also in the old configuration whose settings changed
/// (`changed`) or did not (`!changed`), in the new order.
fn kept(old: &Vec<ServerConfig>, new: &Vec<ServerConfig>, changed: bool) -> (r: Vec<String>)
    ensures
        r@.map_values(|s: String| s@) == kept_names(old@, new@, changed),
{
    let mut r: Vec<String> = Vec::new();
    let mut i: usize = 0;
    assert(new@.take(0) =~= Seq::<ServerConfig>::empty());
    assert(r@.map_values(|s: String| s@) =~= Seq::<Seq<char>>::empty());
    while i < new.len()
        invariant
            i <= new.len(),
            r@.map_values(|s: String| s@) == kept_names(old@, new@.take(i as int), changed),
        decreases new.len() - i,
    {
        assert(new@.take(i + 1).drop_last() =~= new@.take(i as int));
        assert(new@.take(i + 1).last() == new@[i as int]);
        let n = &new[i];
        match find_named(old, &n.name) {
            Some(j) => {
                let o = &old[j];
                let differs = server_settings_differ(o, n);
                if differs == changed {
                    let ghost before = r@;
                    r.push(n.name.clone());
                    assert(r@.map_values(|s: String| s@) =~= before.map_values(|s: String| s@).push(n.name@));
                }
            },
            None => {},
        }
        i = i + 1;
    }
    assert(new@.take(i as int) =~= new@);
    r
}

/// Compares two configurations: the servers added, removed, updated and
/// unchanged (see `diff_servers`).
pub fn diff_configs(old: &Config, new: &Config) -> (r: ReloadResult)
    ensures
        r.added@.map_values(|s: String| s@) == names_absent(server_names(new.servers@), server_names(old.servers@)),
        r.removed@.map_values(|s: String| s@) == names_absent(server_names(old.servers@), server_names(new.servers@)),
        r.updated@.map_values(|s: String| s@) == kept_names(old.servers@, new.servers@, true),
        r.unchanged@.map_values(|s: String| s@) == kept_names(old.servers@, new.servers@, false),
{
    diff_servers(&old.servers, &new.servers)
}

/// Compares the server lists of two configurations.
pub fn diff_servers(old: &Vec<ServerConfig>, new: &Vec<ServerConfig>) -> (r: ReloadResult)
    ensures
        r.added@.map_values(|s: String| s@) == names_absent(server_names(new@), server_names(old@)),
        r.removed@.map_values(|s: String| s@) == names_absent(server_names(old@), server_names(new@)),
        r.updated@.map_values(|s: String| s@) == kept_names(old@, new@, true),
        r.unchanged@.map_values(|s: String| s@) == kept_names(old@, new@, false),
{
    let old_names = names_of(old);
    let new_names = names_of(new);
    let added = absent_names(&new_names, &old_names);
    let removed = absent_names(&old_names, &new_names);
    let updated = kept(old, new, true);
    let unchanged = kept(old, new, false);
    ReloadResult { added, removed, updated, unchanged }
}

/// `HashMap::eq` on string maps: whether both hold the same keys with the
/// same values.
#[verifier::external_body]
fn string_maps_equal(a: &HashMap<String, String>, b: &HashMap<String, String>) -> (r: bool)
    ensures
        r == (a.deep_view() == b.deep_view()),
{
    a == b
}

/// The texts of a list of strings.
pub open spec fn texts(v: Seq<String>) -> Seq<Seq<char>> {
    v.map_values(|s: String| s@)
}

/// Whether a running server must be restarted for its new settings:
/// transport, command, arguments, URL, environment, headers or enabled
/// flag differ.
pub open spec fn restart_needed(o: ServerConfig, n: ServerConfig) -> bool {
    ||| o.transport@ != n.transport@
    ||| opt_text(o.command) != opt_text(n.command)
    ||| texts(o.args@) != texts(n.args@)
    ||| opt_text(o.url) != opt_text(n.url)
    ||| o.env.deep_view() != n.env.deep_view()
    ||| o.headers.deep_view() != n.headers.deep_view()
    ||| o.enabled != n.enabled
}

/// Whether two string lists hold the same texts.
fn strings_equal(a: &Vec<String>, b: &Vec<String>) -> (r: bool)
    ensures
        r == (texts(a@) == texts(b@)),
{
    if a.len() != b.len() {
        assert(texts(a@).len() != texts(b@).len());
        return false;
    }
    let mut i: usize = 0;
    while i < a.len()
        invariant
            i <= a.len(),
            a.len() == b.len(),
            forall|j: int| 0 <= j < i ==> a@[j]@ == b@[j]@,
        decreases a.len() - i,
    {
        if !(a[i] == b[i]) {
            assert(texts(a@)[i as int] != texts(b@)[i as int]);
            return false;
        }
        i = i + 1;
    }
    assert(texts(a@) =~= texts(b@));
    true
}

/// Whether a running server must be restarted for its new settings.
pub fn server_config_changed(old: &ServerConfig, new: &ServerConfig) -> (r: bool)
    ensures
        r == restart_needed(*old, *new),
{
    !(old.transport == new.transport) || !opt_eq(&old.command, &new.command) || !strings_equal(&old.args, &new.args)
        || !opt_eq(&old.url, &new.url) || !string_maps_equal(&old.env, &new.env)
        || !string_maps_equal(&old.headers, &new.headers) || old.enabled != new.enabled
}

/// Whether two configurations of a server differ in any setting.
fn server_settings_differ(o: &ServerConfig, n: &ServerConfig) -> (r: bool)
    ensures
        r == server_changed(*o, *n),
{
    let same_pool = match (o.pool_size, n.pool_size) {
        (Some(a), Some(b)) => a == b,
        (None, None) => true,
        _ => false,
    };
    server_config_changed(o, n) || !(o.name == n.name) || !(o.sharing == n.sharing) || !same_pool
        || o.priority != n.priority || !strings_equal(&o.tags, &n.tags)
        || o.timeouts.connect_secs != n.timeouts.connect_secs
        || o.timeouts.request_secs != n.timeouts.request_secs
        || o.timeouts.health_check_secs != n.timeouts.health_check_secs
}

/// One step of applying a reloaded configuration.
#[derive(Debug, Clone, PartialEq, Eq)]
pub enum ReloadAction {
    /// Stop a server the new configuration lacks.
    Remove(String),
    /// Stop a server whose settings changed, and start it again when the
    /// new settings enable it.
    Restart { name: String, start_again: bool },
    /// Start a server only the new configuration has, enabled.
    Add(String),
}

/// The abstract value of an action: its kind (0 remove, 1 restart, 2
/// add), the server's name and whether it is started again.
pub open spec fn action_view(a: ReloadAction) -> (u8, Seq<char>, bool) {
    match a {
        ReloadAction::Remove(n) => (0u8, n@, false),
        ReloadAction::Restart { name, start_again } => (1u8, name@, start_again),
        ReloadAction::Add(n) => (2u8, n@, true),
    }
}

/// The position of the last server named `name`, or -1; a later entry
/// with the same name overrides an earlier one.
pub open spec fn last_named(s: Seq<ServerConfig>, name: Seq<char>) -> int
    decreases s.len(),
{
    if s.len() == 0 {
        -1
    } else if s.last().name@ == name {
        s.len() - 1
    } else {
        last_named(s.drop_last(), name)
    }
}

/// What to do for each server name of the new configuration, in order of
/// first occurrence.
pub open spec fn update_actions(current: Seq<ServerConfig>, new: Seq<ServerConfig>, names: Seq<Seq<char>>) -> Seq<(u8, Seq<char>, bool)>
    decreases names.len(),
{
    if names.len() == 0 {
        Seq::empty()
    } else {
        let rest = update_actions(current, new, names.drop_last());
        let n = names.last();
        let nc = new[last_named(new, n)];
        let i = last_named(current, n);
        if i >= 0 {
            if restart_needed(current[i], nc) { rest.push((1u8, n, nc.enabled)) } else { rest }
        } else if nc.enabled {
            rest.push((2u8, n, true))
        } else {
            rest
        }
    }
}

/// The steps that take the running servers to a new configuration: first
/// stop the servers it lacks, then, for each of its servers, restart the
/// changed ones and start the new enabled ones.
pub open spec fn spec_reload_plan(current: Seq<ServerConfig>, new: Seq<ServerConfig>) -> Seq<(u8, Seq<char>, bool)> {
    names_absent(server_names(current), server_names(new)).map_values(|n: Seq<char>| (0u8, n, false))
        + update_actions(current, new, names_absent(server_names(new), Seq::empty()))
}

/// The last server named `name`, if any.
fn find_last_named(servers: &Vec<ServerConfig>, name: &String) -> (r: Option<usize>)
    ensures
        match r {
            Some(i) => i < servers.len() && i == last_named(servers@, name@),
            None => last_named(servers@, name@) < 0,
        },
{
    let mut i: usize = servers.len();
    assert(servers@.take(i as int) =~= servers@);
    while i > 0
        invariant
            i <= servers.len(),
            last_named(servers@, name@) == last_named(servers@.take(i as int), name@),
        decreases i,
    {
        assert(servers@.take(i as int).drop_last() =~= servers@.take(i - 1));
        assert(servers@.take(i as int).last() == servers@[i - 1]);
        if servers[i - 1].name == *name {
            return Some(i - 1);
        }
        i = i - 1;
    }
    None
}

/// The steps that take the running servers (`current`) to the servers of
/// a reloaded configuration (`new`).
pub fn plan_reload(current: &Vec<ServerConfig>, new: &Vec<ServerConfig>) -> (r: Vec<ReloadAction>)
    ensures
        r@.map_values(|a: ReloadAction| action_view(a)) == spec_reload_plan(current@, new@),
{
    let current_names = names_of(current);
    let new_names = names_of(new);
    let removed = absent_names(&current_names, &new_names);
    let no_names: Vec<String> = Vec::new();
    assert(no_names@.map_values(|s: String| s@) =~= Seq::<Seq<char>>::empty());
    let distinct_new = absent_names(&new_names, &no_names);
    let ghost rv = removed@.map_values(|s: String| s@);
    let ghost dv = distinct_new@.map_values(|s: String| s@);
    let mut r: Vec<ReloadAction> = Vec::new();
    let mut i: usize = 0;
    while i < removed.len()
        invariant
            i <= removed.len(),
            rv == removed@.map_values(|s: String| s@),
            r@.map_values(|a: ReloadAction| action_view(a)) == rv.take(i as int).map_values(|n: Seq<char>| (0u8, n, false)),
        decreases removed.len() - i,
    {
        let ghost before = r@;
        r.push(ReloadAction::Remove(removed[i].clone()));
        assert(rv.take(i + 1) =~= rv.take(i as int).push(rv[i as int]));
        assert(r@.map_values(|a: ReloadAction| action_view(a)) =~= before.map_values(|a: ReloadAction| action_view(a)).push((0u8, rv[i as int], false)));
        i = i + 1;
    }
    assert(rv.take(i as int) =~= rv);
    let ghost head = r@.map_values(|a: ReloadAction| action_view(a));
    let mut k: usize = 0;
    assert(dv.take(0) =~= Seq::<Seq<char>>::empty());
    assert(head + update_actions(current@, new@, dv.take(0)) =~= head);
    while k < distinct_new.len()
        invariant
            k <= distinct_new.len(),
            dv == distinct_new@.map_values(|s: String| s@),
            dv == names_absent(server_names(new@), Seq::empty()),
            r@.map_values(|a: ReloadAction| action_view(a)) == head + update_actions(current@, new@, dv.take(k as int)),
        decreases distinct_new.len() - k,
    {
        let name = &distinct_new[k];
        proof {
            assert(dv.take(k + 1).drop_last() =~= dv.take(k as int));
            assert(dv.take(k + 1).last() == name@);
            lemma_names_absent_members(server_names(new@), Seq::empty());
            assert(dv.contains(dv[k as int]));
            lemma_last_named_exists(new@, name@);
        }
        let j = match find_last_named(new, name) {
            Some(j) => j,
            None => {
                proof {
                    assert(false);
                }
                0
            },
        };
        let nc = &new[j];
        let ghost before = r@;
        match find_last_named(current, name) {
            Some(ci) => {
                if server_config_changed(&current[ci], nc) {
                    r.push(ReloadAction::Restart { name: name.clone(), start_again: nc.enabled });
                    assert(r@.map_values(|a: ReloadAction| action_view(a)) =~= before.map_values(|a: ReloadAction| action_view(a)).push((1u8, name@, nc.enabled)));
                }
            },
            None => {
                if nc.enabled {
                    r.push(ReloadAction::Add(name.clone()));
                    assert(r@.map_values(|a: ReloadAction| action_view(a)) =~= before.map_values(|a: ReloadAction| action_view(a)).push((2u8, name@, true)));
                }
            },
        }
        k = k + 1;
    }
    assert(dv.take(k as int) =~= dv);
    r
}

/// Names kept by `names_absent` are names of the list.
pub proof fn lemma_names_absent_members(names: Seq<Seq<char>>, other: Seq<Seq<char>>)
    ensures
        forall|x: Seq<char>| #[trigger] names_absent(names, other).contains(x) ==> names.contains(x) && !other.contains(x),
        names_absent(names, other).no_duplicates(),
    decreases names.len(),
{
    if names.len() > 0 {
        let d = names.drop_last();
        lemma_names_absent_members(d, other);
        let r0 = names_absent(d, other);
        let r = names_absent(names, other);
        assert forall|x: Seq<char>| #[trigger] r.contains(x) implies names.contains(x) && !other.contains(x) by {
            let k = choose|k: int| 0 <= k < r.len() && r[k] == x;
            if k < r0.len() {
                assert(r0[k] == x);
                assert(r0.contains(x));
                let j = choose|j: int| 0 <= j < d.len() && d[j] == x;
                assert(names[j] == x);
            } else {
                assert(names[names.len() - 1] == x);
            }
        }
        assert forall|a: int, b: int| 0 <= a < r.len() && 0 <= b < r.len() && a != b implies r[a] != r[b] by {
            if a < r0.len() && b < r0.len() {
            } else if a < r0.len() {
                assert(r0.contains(r0[a]));
            } else if b < r0.len() {
                assert(r0.contains(r0[b]));
            }
        }
    }
}

/// A name of the list is found by `last_named`.
proof fn lemma_last_named_exists(s: Seq<ServerConfig>, name: Seq<char>)
    requires
        server_names(s).contains(name),
    ensures
        last_named(s, name) >= 0,
    decreases s.len(),
{
    if s.last().name@ != name {
        let j = choose|j: int| 0 <= j < server_names(s).len() && server_names(s)[j] == name;
        assert(j < s.len() - 1);
        assert(server_names(s.drop_last())[j] == name);
        lemma_last_named_exists(s.drop_last(), name);
    }
}

/// How many servers a reload added, removed and restarted.
#[derive(Debug, Clone, Copy, PartialEq, Eq, Structural)]
pub struct ReloadCounts {
    pub added: usize,
    pub removed: usize,
    pub restarted: usize,
}

/// The counts after one action: a removal counts when it worked; a restart
/// counts as a restart when both stopping and starting worked, as a
/// removal when the server was only to be stopped and stopping worked; an
/// addition counts when it worked.
pub fn count_outcome(counts: ReloadCounts, action: &ReloadAction, stopped: bool, started: bool) -> (r: ReloadCounts)
    requires
        counts.added < usize::MAX,
        counts.removed < usize::MAX,
        counts.restarted < usize::MAX,
    ensures
        r == match action {
            ReloadAction::Remove(_) => if stopped { ReloadCounts { removed: (counts.removed + 1) as usize, ..counts } } else { counts },
            ReloadAction::Restart { start_again, .. } => if !stopped {
                counts
            } else if *start_again {
                if started { ReloadCounts { restarted: (counts.restarted + 1) as usize, ..counts } } else { counts }
            } else {
                ReloadCounts { removed: (counts.removed + 1) as usize, ..counts }
            },
            ReloadAction::Add(_) => if started { ReloadCounts { added: (counts.added + 1) as usize, ..counts } } else { counts },
        },
{
    match action {
        ReloadAction::Remove(_) => if stopped { ReloadCounts { removed: counts.removed + 1, ..counts } } else { counts },
        ReloadAction::Restart { start_again, .. } => if !stopped {
            counts
        } else if *start_again {
            if started { ReloadCounts { restarted: counts.restarted + 1, ..counts } } else { counts }
        } else {
            ReloadCounts { removed: counts.removed + 1, ..counts }
        },
        ReloadAction::Add(_) => if started { ReloadCounts { added: counts.added + 1, ..counts } } else { counts },
    }
}

} // verus!
