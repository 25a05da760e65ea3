//! The settings migration that replaces `always_allow_tool_actions` with tool
//! permission defaults and renames `default_mode` to `default`.

use vstd::prelude::*;

use crate::settings_json::{
    entries_view, find_key, has_key, insert_key, json_view, key_index, keys_unique, lemma_insert_get, lemma_key_index,
    lemma_key_index_keys, lemma_keys_unique_kept, lemma_object_view, obj_get, obj_insert, obj_remove, put_value,
    remove_key, take_value, Json, JsonValue,
};

verus! {

/// An object's `default_mode` moved to `default`, unless `default` is set;
/// `default_mode` is dropped either way.
pub open spec fn moved_default_mode(m: Seq<(Seq<char>, Json)>) -> Seq<(Seq<char>, Json)> {
    match obj_get(m, "default_mode"@) {
        Some(mode) => {
            let rest = obj_remove(m, "default_mode"@);
            if obj_get(rest, "default"@) is Some {
                rest
            } else {
                obj_insert(rest, "default"@, mode)
            }
        },
        None => m,
    }
}

/// The rules of one tool, migrated where they are an object.
pub open spec fn tool_rules_migrated(v: Json) -> Json {
    match v {
        Json::Object(rules) => Json::Object(moved_default_mode(rules)),
        _ => v,
    }
}

/// The rules of each tool migrated.
pub open spec fn tools_migrated(tools: Seq<(Seq<char>, Json)>) -> Seq<(Seq<char>, Json)> {
    Seq::new(tools.len(), |j: int| (tools[j].0, tool_rules_migrated(tools[j].1)))
}

/// A `tool_permissions` value with `default_mode` moved to `default`, at its
/// top and in the rules of each of its `tools`.
pub open spec fn default_mode_migrated(v: Json) -> Json {
    match v {
        Json::Object(m) => {
            let m1 = moved_default_mode(m);
            let i = key_index(m1, "tools"@);
            if 0 <= i < m1.len() {
                match m1[i].1 {
                    Json::Object(tools) => Json::Object(m1.update(i, (m1[i].0, Json::Object(tools_migrated(tools))))),
                    _ => Json::Object(m1),
                }
            } else {
                Json::Object(m1)
            }
        },
        _ => v,
    }
}

/// An agent (or profile) object migrated: `always_allow_tool_actions` is
/// dropped where it is a boolean or null, and where it was `true` the tool
/// permissions default to `allow` unless a default is set; then the tool
/// permissions get `default_mode` moved to `default`.
pub open spec fn tool_permissions_migrated(v: Json) -> Json {
    match v {
        Json::Object(m) => {
            let always = "always_allow_tool_actions"@;
            let (m1, allow) = match obj_get(m, always) {
                Some(Json::Bool(b)) => (obj_remove(m, always), b),
                Some(Json::Null) => (obj_remove(m, always), false),
                Some(_) => (m, false),
                None => (m, false),
            };
            let permissions = "tool_permissions"@;
            let m2 = if allow {
                let current = match obj_get(m1, permissions) {
                    Some(Json::Object(o)) => o,
                    _ => seq![],
                };
                let updated = if obj_get(current, "default"@) is None && obj_get(current, "default_mode"@) is None {
                    obj_insert(current, "default"@, Json::Str("allow"@))
                } else {
                    current
                };
                obj_insert(m1, permissions, Json::Object(updated))
            } else {
                m1
            };
            let i = key_index(m2, permissions);
            if 0 <= i < m2.len() {
                Json::Object(m2.update(i, (m2[i].0, default_mode_migrated(m2[i].1))))
            } else {
                Json::Object(m2)
            }
        },
        _ => v,
    }
}

/// Each profile migrated.
pub open spec fn each_profile_migrated(p: Seq<(Seq<char>, Json)>) -> Seq<(Seq<char>, Json)> {
    Seq::new(p.len(), |j: int| (p[j].0, tool_permissions_migrated(p[j].1)))
}

/// An agent object migrated, with each of its profiles.
pub open spec fn profiles_migrated(v: Json) -> Json {
    let v1 = tool_permissions_migrated(v);
    match v1 {
        Json::Object(m) => {
            let i = key_index(m, "profiles"@);
            if 0 <= i < m.len() {
                match m[i].1 {
                    Json::Object(p) => Json::Object(m.update(i, (m[i].0, Json::Object(each_profile_migrated(p))))),
                    _ => v1,
                }
            } else {
                v1
            }
        },
        _ => v1,
    }
}

/// The settings with `agent_servers.<server>.default_mode` set to `mode`
/// where it is not set, creating the objects on the way where missing.
pub open spec fn server_mode_set(m: Seq<(Seq<char>, Json)>, server: Seq<char>, mode: Seq<char>) -> Seq<(Seq<char>, Json)> {
    let servers_key = "agent_servers"@;
    let m1 = if obj_get(m, servers_key) is Some {
        m
    } else {
        obj_insert(m, servers_key, Json::Object(seq![]))
    };
    let i = key_index(m1, servers_key);
    if 0 <= i < m1.len() {
        match m1[i].1 {
            Json::Object(s) => {
                let s1 = if obj_get(s, server) is Some {
                    s
                } else {
                    obj_insert(s, server, Json::Object(seq![]))
                };
                let j = key_index(s1, server);
                let s2 = if 0 <= j < s1.len() {
                    match s1[j].1 {
                        Json::Object(e) => {
                            let e1 = if obj_get(e, "default_mode"@) is Some {
                                e
                            } else {
                                obj_insert(e, "default_mode"@, Json::Str(mode))
                            };
                            s1.update(j, (s1[j].0, Json::Object(e1)))
                        },
                        _ => s1,
                    }
                } else {
                    s1
                };
                m1.update(i, (m1[i].0, Json::Object(s2)))
            },
            _ => m1,
        }
    } else {
        m1
    }
}

/// Whether the agent settings had `always_allow_tool_actions` set to `true`.
pub open spec fn always_allowed(m: Seq<(Seq<char>, Json)>) -> bool {
    match obj_get(m, "agent"@) {
        Some(Json::Object(a)) => obj_get(a, "always_allow_tool_actions"@) == Some(Json::Bool(true)),
        _ => false,
    }
}

/// The default mode of each agent server in `modes` set in turn.
pub open spec fn server_modes_set(m: Seq<(Seq<char>, Json)>, modes: Seq<(String, String)>) -> Seq<(Seq<char>, Json)>
    decreases modes.len(),
{
    if modes.len() == 0 {
        m
    } else {
        server_mode_set(server_modes_set(m, modes.drop_last()), modes.last().0@, modes.last().1@)
    }
}

/// One settings object migrated: the agent and its profiles, and where tool
/// actions were always allowed, the default mode of each agent server listed
/// in `modes`, where it has none.
pub open spec fn settings_migrated(m: Seq<(Seq<char>, Json)>, modes: Seq<(String, String)>) -> Seq<(Seq<char>, Json)> {
    let i = key_index(m, "agent"@);
    let m1 = if 0 <= i < m.len() {
        m.update(i, (m[i].0, profiles_migrated(m[i].1)))
    } else {
        m
    };
    if always_allowed(m) {
        server_modes_set(m1, modes)
    } else {
        m1
    }
}

proof fn lemma_server_mode_set_unique(m: Seq<(Seq<char>, Json)>, server: Seq<char>, mode: Seq<char>)
    requires
        keys_unique(m),
    ensures
        keys_unique(server_mode_set(m, server, mode)),
{
    let servers_key = "agent_servers"@;
    lemma_keys_unique_kept(m, servers_key, Json::Object(seq![]));
    let m1 = if obj_get(m, servers_key) is Some {
        m
    } else {
        obj_insert(m, servers_key, Json::Object(seq![]))
    };
    let i = key_index(m1, servers_key);
    if 0 <= i < m1.len() {
        let r = server_mode_set(m, server, mode);
        if r != m1 {
            lemma_keys_unique_kept(m1, servers_key, r[i].1);
            assert(r == m1.update(i, (m1[i].0, r[i].1)));
        }
    }
}

proof fn lemma_server_modes_set_unique(m: Seq<(Seq<char>, Json)>, modes: Seq<(String, String)>)
    requires
        keys_unique(m),
    ensures
        keys_unique(server_modes_set(m, modes)),
    decreases modes.len(),
{
    if modes.len() > 0 {
        lemma_server_modes_set_unique(m, modes.drop_last());
        lemma_server_mode_set_unique(server_modes_set(m, modes.drop_last()), modes.last().0@, modes.last().1@);
    }
}

/// The migration keeps the keys of the settings object distinct.
pub proof fn lemma_settings_migrated_keys_unique(m: Seq<(Seq<char>, Json)>, modes: Seq<(String, String)>)
    requires
        keys_unique(m),
    ensures
        keys_unique(settings_migrated(m, modes)),
{
    let i = key_index(m, "agent"@);
    let m1 = if 0 <= i < m.len() {
        m.update(i, (m[i].0, profiles_migrated(m[i].1)))
    } else {
        m
    };
    if 0 <= i < m.len() {
        lemma_keys_unique_kept(m, "agent"@, profiles_migrated(m[i].1));
    }
    assert(keys_unique(m1));
    lemma_server_modes_set_unique(m1, modes);
}

fn move_default_mode(m: &mut Vec<(String, JsonValue)>)
    ensures
        entries_view(final(m)@) == moved_default_mode(entries_view(old(m)@)),
{
    let mode_key = "default_mode".to_owned();
    let default_key = "default".to_owned();
    match remove_key(m, &mode_key) {
        Some(mode) => {
            if !has_key(m, &default_key) {
                insert_key(m, default_key, mode);
            }
        },
        None => {},
    }
}

/// Migrates one tool's rules in place, where they are an object.
fn migrate_tool_rules(v: JsonValue) -> (r: JsonValue)
    ensures
        json_view(r) == tool_rules_migrated(json_view(v)),
{
    match v {
        JsonValue::Object(mut rules) => {
            proof {
                lemma_object_view(rules);
            }
            move_default_mode(&mut rules);
            proof {
                lemma_object_view(rules);
            }
            JsonValue::Object(rules)
        },
        other => other,
    }
}

fn migrate_default_mode_to_default(tool_permissions: JsonValue) -> (r: JsonValue)
    ensures
        json_view(r) == default_mode_migrated(json_view(tool_permissions)),
{
    let mut m = match tool_permissions {
        JsonValue::Object(m) => m,
        other => return other,
    };
    proof {
        lemma_object_view(m);
    }
    move_default_mode(&mut m);
    let ghost m1 = entries_view(m@);
    proof {
        lemma_key_index(m1, "tools"@);
    }
    let tools_key = "tools".to_owned();
    match find_key(&m, &tools_key) {
        Some(i) => {
            let ghost before = m@;
            let (key, tools) = take_value(&mut m, i);
            assert(m1[i as int] == (key@, json_view(tools)));
            match tools {
                JsonValue::Object(mut t) => {
                    proof {
                        lemma_object_view(t);
                    }
                    let ghost t0 = entries_view(t@);
                    assert(m1[i as int].1 == Json::Object(t0));
                    let mut j: usize = 0;
                    while j < t.len()
                        invariant
                            t@.len() == t0.len(),
                            j <= t@.len(),
                            forall|k: int| 0 <= k < j ==> #[trigger] entries_view(t@)[k] == tools_migrated(t0)[k],
                            forall|k: int| j <= k < t@.len() ==> #[trigger] entries_view(t@)[k] == t0[k],
                        decreases t@.len() - j,
                    {
                        let ghost prev = entries_view(t@);
                        assert(prev[j as int] == t0[j as int]);
                        let (rule_key, rules) = take_value(&mut t, j);
                        assert(prev[j as int] == (rule_key@, json_view(rules)));
                        let migrated = migrate_tool_rules(rules);
                        put_value(&mut t, j, rule_key, migrated);
                        assert(entries_view(t@)[j as int] == tools_migrated(t0)[j as int]);
                        assert forall|k: int| 0 <= k < t@.len() && k != j implies #[trigger] entries_view(t@)[k]
                            == prev[k] by {}
                        j = j + 1;
                    }
                    proof {
                        lemma_object_view(t);
                        assert(entries_view(t@) =~= tools_migrated(t0));
                    }
                    put_value(&mut m, i, key, JsonValue::Object(t));
                    assert(entries_view(m@) =~= m1.update(i as int, (m1[i as int].0, Json::Object(tools_migrated(t0)))));
                },
                other => {
                    assert(!(json_view(other) is Object));
                    put_value(&mut m, i, key, other);
                    assert(entries_view(m@) =~= m1);
                },
            }
        },
        None => {},
    }
    proof {
        lemma_object_view(m);
    }
    JsonValue::Object(m)
}

fn migrate_agent_tool_permissions(agent: JsonValue) -> (r: JsonValue)
    ensures
        json_view(r) == tool_permissions_migrated(json_view(agent)),
{
    let mut m = match agent {
        JsonValue::Object(m) => m,
        other => return other,
    };
    proof {
        lemma_object_view(m);
    }
    let ghost m0 = entries_view(m@);
    proof {
        lemma_key_index(m0, "always_allow_tool_actions"@);
    }
    let always_key = "always_allow_tool_actions".to_owned();
    let allow = match find_key(&m, &always_key) {
        Some(i) => {
            assert(obj_get(m0, always_key@) == Some(json_view(m@[i as int].1)));
            let flag = match &m[i].1 {
                JsonValue::Bool(b) => Some(*b),
                JsonValue::Null => Some(false),
                _ => None,
            };
            match flag {
                Some(b) => {
                    let _ = remove_key(&mut m, &always_key);
                    b
                },
                None => false,
            }
        },
        None => false,
    };
    let ghost m1 = entries_view(m@);
    assert((m1, allow) == match obj_get(m0, "always_allow_tool_actions"@) {
        Some(Json::Bool(b)) => (obj_remove(m0, "always_allow_tool_actions"@), b),
        Some(Json::Null) => (obj_remove(m0, "always_allow_tool_actions"@), false),
        Some(_) => (m0, false),
        None => (m0, false),
    });
    let permissions_key = "tool_permissions".to_owned();
    proof {
        lemma_key_index(m1, permissions_key@);
    }
    if allow {
        let mut current: Vec<(String, JsonValue)> = match find_key(&m, &permissions_key) {
            Some(i) => {
                let (key, value) = take_value(&mut m, i);
                assert(m1[i as int] == (key@, json_view(value)));
                assert(obj_get(m1, permissions_key@) == Some(json_view(value)));
                proof {
                    let mid = entries_view(m@);
                    assert forall|k: int| 0 <= k < m1.len() implies #[trigger] m1[k].0 == mid[k].0 by {}
                    lemma_key_index_keys(m1, mid, permissions_key@);
                }
                match value {
                    JsonValue::Object(o) => {
                        proof {
                            lemma_object_view(o);
                        }
                        o
                    },
                    other => {
                        assert(!(json_view(other) is Object));
                        Vec::new()
                    },
                }
            },
            None => Vec::new(),
        };
        let ghost current0 = entries_view(current@);
        assert(current0 == match obj_get(m1, permissions_key@) {
            Some(Json::Object(o)) => o,
            _ => seq![],
        });
        let default_key = "default".to_owned();
        let mode_key = "default_mode".to_owned();
        if !has_key(&current, &default_key) && !has_key(&current, &mode_key) {
            insert_key(&mut current, default_key, JsonValue::String("allow".to_owned()));
        }
        proof {
            lemma_object_view(current);
        }
        insert_key(&mut m, permissions_key.clone(), JsonValue::Object(current));
        assert(entries_view(m@) =~= obj_insert(m1, permissions_key@, json_view(JsonValue::Object(current))));
    }
    let ghost m2 = entries_view(m@);
    proof {
        lemma_key_index(m2, permissions_key@);
    }
    match find_key(&m, &permissions_key) {
        Some(i) => {
            let (key, permissions) = take_value(&mut m, i);
            assert(m2[i as int] == (key@, json_view(permissions)));
            let migrated = migrate_default_mode_to_default(permissions);
            put_value(&mut m, i, key, migrated);
            assert(entries_view(m@) =~= m2.update(i as int, (m2[i as int].0, default_mode_migrated(m2[i as int].1))));
        },
        None => {},
    }
    proof {
        lemma_object_view(m);
    }
    JsonValue::Object(m)
}

fn migrate_agent_with_profiles(agent: JsonValue) -> (r: JsonValue)
    ensures
        json_view(r) == profiles_migrated(json_view(agent)),
{
    let migrated = migrate_agent_tool_permissions(agent);
    let mut m = match migrated {
        JsonValue::Object(m) => m,
        other => return other,
    };
    proof {
        lemma_object_view(m);
    }
    let ghost m1 = entries_view(m@);
    proof {
        lemma_key_index(m1, "profiles"@);
    }
    let profiles_key = "profiles".to_owned();
    match find_key(&m, &profiles_key) {
        Some(i) => {
            let (key, profiles) = take_value(&mut m, i);
            assert(m1[i as int] == (key@, json_view(profiles)));
            match profiles {
                JsonValue::Object(mut p) => {
                    proof {
                        lemma_object_view(p);
                    }
                    let ghost p0 = entries_view(p@);
                    let mut j: usize = 0;
                    while j < p.len()
                        invariant
                            p@.len() == p0.len(),
                            j <= p@.len(),
                            forall|k: int| 0 <= k < j ==> #[trigger] entries_view(p@)[k] == each_profile_migrated(p0)[k],
                            forall|k: int| j <= k < p@.len() ==> #[trigger] entries_view(p@)[k] == p0[k],
                        decreases p@.len() - j,
                    {
                        let ghost prev = entries_view(p@);
                        assert(prev[j as int] == p0[j as int]);
                        let (profile_key, profile) = take_value(&mut p, j);
                        assert(prev[j as int] == (profile_key@, json_view(profile)));
                        let migrated_profile = migrate_agent_tool_permissions(profile);
                        put_value(&mut p, j, profile_key, migrated_profile);
                        assert(entries_view(p@)[j as int] == each_profile_migrated(p0)[j as int]);
                        assert forall|k: int| 0 <= k < p@.len() && k != j implies #[trigger] entries_view(p@)[k]
                            == prev[k] by {}
                        j = j + 1;
                    }
                    proof {
                        lemma_object_view(p);
                        assert(entries_view(p@) =~= each_profile_migrated(p0));
                    }
                    put_value(&mut m, i, key, JsonValue::Object(p));
                    assert(entries_view(m@) =~= m1.update(
                        i as int,
                        (m1[i as int].0, Json::Object(each_profile_migrated(p0))),
                    ));
                },
                other => {
                    assert(!(json_view(other) is Object));
                    put_value(&mut m, i, key, other);
                    assert(entries_view(m@) =~= m1);
                },
            }
        },
        None => {},
    }
    proof {
        lemma_object_view(m);
    }
    JsonValue::Object(m)
}

fn set_in_object(m: &mut Vec<(String, JsonValue)>, key: &String) -> (r: usize)
    ensures
        entries_view(final(m)@) == if obj_get(entries_view(old(m)@), key@) is Some {
            entries_view(old(m)@)
        } else {
            obj_insert(entries_view(old(m)@), key@, Json::Object(seq![]))
        },
        r < final(m)@.len(),
        r as int == key_index(entries_view(final(m)@), key@),
{
    let ghost m0 = entries_view(m@);
    proof {
        lemma_key_index(m0, key@);
        lemma_insert_get(m0, key@, Json::Object(seq![]));
    }
    match find_key(m, key) {
        Some(i) => i,
        None => {
            let empty: Vec<(String, JsonValue)> = Vec::new();
            proof {
                lemma_object_view(empty);
                assert(entries_view(empty@) =~= seq![]);
            }
            insert_key(m, key.clone(), JsonValue::Object(empty));
            m.len() - 1
        },
    }
}

fn set_agent_server_default_mode(m: &mut Vec<(String, JsonValue)>, server_name: &str, mode: &str)
    ensures
        entries_view(final(m)@) == server_mode_set(entries_view(old(m)@), server_name@, mode@),
{
    let servers_key = "agent_servers".to_owned();
    let i = set_in_object(m, &servers_key);
    let ghost m1 = entries_view(m@);
    let (key, servers) = take_value(m, i);
    assert(m1[i as int] == (key@, json_view(servers)));
    match servers {
        JsonValue::Object(mut s) => {
            proof {
                lemma_object_view(s);
            }
            let server_key = server_name.to_owned();
            let j = set_in_object(&mut s, &server_key);
            let ghost s1 = entries_view(s@);
            let (entry_key, entry) = take_value(&mut s, j);
            assert(s1[j as int] == (entry_key@, json_view(entry)));
            match entry {
                JsonValue::Object(mut e) => {
                    proof {
                        lemma_object_view(e);
                    }
                    let ghost e0 = entries_view(e@);
                    assert(s1[j as int].1 == Json::Object(e0));
                    let mode_key = "default_mode".to_owned();
                    if !has_key(&e, &mode_key) {
                        let mode_value = JsonValue::String(mode.to_owned());
                        assert(json_view(mode_value) == Json::Str(mode@));
                        insert_key(&mut e, mode_key, mode_value);
                    }
                    let ghost e1 = entries_view(e@);
                    assert(e1 == if obj_get(e0, "default_mode"@) is Some {
                        e0
                    } else {
                        obj_insert(e0, "default_mode"@, Json::Str(mode@))
                    });
                    proof {
                        lemma_object_view(e);
                    }
                    put_value(&mut s, j, entry_key, JsonValue::Object(e));
                    assert(entries_view(s@) =~= s1.update(j as int, (s1[j as int].0, Json::Object(e1))));
                },
                other => {
                    assert(!(json_view(other) is Object));
                    put_value(&mut s, j, entry_key, other);
                    assert(entries_view(s@) =~= s1);
                },
            }
            proof {
                lemma_object_view(s);
            }
            let ghost s2 = entries_view(s@);
            put_value(m, i, key, JsonValue::Object(s));
            assert(entries_view(m@) =~= m1.update(i as int, (m1[i as int].0, Json::Object(s2))));
        },
        other => {
            assert(!(json_view(other) is Object));
            put_value(m, i, key, other);
            assert(entries_view(m@) =~= m1);
        },
    }
}

fn migrate_one(m: &mut Vec<(String, JsonValue)>, server_modes: &Vec<(String, String)>)
    ensures
        entries_view(final(m)@) == settings_migrated(entries_view(old(m)@), server_modes@),
{
    let ghost m0 = entries_view(m@);
    proof {
        lemma_key_index(m0, "agent"@);
    }
    let agent_key = "agent".to_owned();
    let always_key = "always_allow_tool_actions".to_owned();
    let had_always_allow = match find_key(m, &agent_key) {
        Some(i) => match &m[i].1 {
            JsonValue::Object(a) => {
                proof {
                    lemma_object_view(*a);
                    lemma_key_index(entries_view(a@), always_key@);
                }
                match find_key(a, &always_key) {
                    Some(j) => match &a[j].1 {
                        JsonValue::Bool(b) => *b,
                        _ => false,
                    },
                    None => false,
                }
            },
            _ => false,
        },
        None => false,
    };
    assert(had_always_allow == always_allowed(m0));
    match find_key(m, &agent_key) {
        Some(i) => {
            let (key, agent) = take_value(m, i);
            assert(m0[i as int] == (key@, json_view(agent)));
            let migrated = migrate_agent_with_profiles(agent);
            put_value(m, i, key, migrated);
            assert(entries_view(m@) =~= m0.update(i as int, (m0[i as int].0, profiles_migrated(m0[i as int].1))));
        },
        None => {},
    }
    if had_always_allow {
        let ghost m1 = entries_view(m@);
        let mut k: usize = 0;
        assert(server_modes@.take(0) =~= Seq::<(String, String)>::empty());
        while k < server_modes.len()
            invariant
                k <= server_modes@.len(),
                entries_view(m@) == server_modes_set(m1, server_modes@.take(k as int)),
            decreases server_modes@.len() - k,
        {
            assert(server_modes@.take(k + 1).drop_last() =~= server_modes@.take(k as int));
            set_agent_server_default_mode(m, server_modes[k].0.as_str(), server_modes[k].1.as_str());
            k = k + 1;
        }
        assert(server_modes@.take(server_modes@.len() as int) =~= server_modes@);
    }
}

/// Migrates the tool permission settings of a settings file: where the
/// agent's `always_allow_tool_actions` was `true`, tool permissions default
/// to `allow` and each agent server of `server_modes` gets its permissive
/// default mode, where it has none, so that its auto-accepting behaviour is
/// kept; `default_mode` becomes `default` in tool permissions and in each
/// tool's rules, for the agent and each of its profiles. A value that is not
/// an object is left as it is.
pub fn migrate_tool_permission_defaults(value: &mut JsonValue, server_modes: &Vec<(String, String)>)
    ensures
        json_view(*final(value)) == match json_view(*old(value)) {
            Json::Object(m) => Json::Object(settings_migrated(m, server_modes@)),
            other => other,
        },
        match json_view(*old(value)) {
            Json::Object(m) => keys_unique(m) ==> json_view(*final(value)) is Object && keys_unique(
                json_view(*final(value))->Object_0,
            ),
            _ => true,
        },
{
    let mut taken = JsonValue::Null;
    std::mem::swap(value, &mut taken);
    match taken {
        JsonValue::Object(mut m) => {
            proof {
                lemma_object_view(m);
            }
            let ghost before = entries_view(m@);
            migrate_one(&mut m, server_modes);
            proof {
                if keys_unique(before) {
                    lemma_settings_migrated_keys_unique(before, server_modes@);
                }
            }
            proof {
                lemma_object_view(m);
            }
            *value = JsonValue::Object(m);
        },
        other => {
            assert(!(json_view(other) is Object));
            *value = other;
        },
    }
}

} // verus!
