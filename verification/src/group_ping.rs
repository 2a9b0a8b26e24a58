//! Group-ping resolution: expands alias references inside group-ping
//! definitions into concrete user-handle sets.  Expansion is one level deep:
//! an alias contributes only the literal handles of the group it names, so a
//! chain of aliases does not expand further.

use crate::config::ConfigError;
use crate::strutil;
use crate::validators;
use vstd::prelude::*;

verus! {

/// Whether a member token is an alias reference to another group.
pub open spec fn is_alias(tok: Seq<char>) -> bool {
    strutil::spec_starts_with(tok, '%')
}

/// Whether a member token is a literal user handle.
pub open spec fn is_literal(tok: Seq<char>) -> bool {
    strutil::spec_starts_with(tok, '@')
}

/// The group name an alias token refers to: the token with every alias
/// marker removed.
pub open spec fn alias_name(tok: Seq<char>) -> Seq<char> {
    strutil::spec_remove_char(tok, '%')
}

/// The member tokens of the first group with the given name, if any.
pub open spec fn lookup(groups: Seq<(Seq<char>, Seq<Seq<char>>)>, name: Seq<char>) -> Option<
    Seq<Seq<char>>,
>
    decreases groups.len(),
{
    if groups.len() == 0 {
        None
    } else if groups[0].0 == name {
        Some(groups[0].1)
    } else {
        lookup(groups.skip(1), name)
    }
}

/// The literal handles among the first `k` member tokens.
pub open spec fn literal_prefix_set(tokens: Seq<Seq<char>>, k: int) -> Set<Seq<char>>
    decreases k,
{
    if k <= 0 {
        Set::empty()
    } else {
        let rest = literal_prefix_set(tokens, k - 1);
        if is_literal(tokens[k - 1]) {
            rest.insert(tokens[k - 1])
        } else {
            rest
        }
    }
}

/// The literal handles among a group's member tokens.
pub open spec fn literal_set(tokens: Seq<Seq<char>>) -> Set<Seq<char>> {
    literal_prefix_set(tokens, tokens.len() as int)
}

/// The handles one member token contributes: an alias contributes the
/// literal handles of the group it names (nothing if that group does not
/// exist); any other token contributes itself.
pub open spec fn token_members(groups: Seq<(Seq<char>, Seq<Seq<char>>)>, tok: Seq<char>) -> Set<
    Seq<char>,
> {
    if is_alias(tok) {
        match lookup(groups, alias_name(tok)) {
            Some(ts) => literal_set(ts),
            None => Set::empty(),
        }
    } else {
        Set::empty().insert(tok)
    }
}

/// The handles contributed by the first `k` member tokens of a group,
/// resolved against the raw mapping.
pub open spec fn resolved_prefix_set(
    groups: Seq<(Seq<char>, Seq<Seq<char>>)>,
    tokens: Seq<Seq<char>>,
    k: int,
) -> Set<Seq<char>>
    decreases k,
{
    if k <= 0 {
        Set::empty()
    } else {
        resolved_prefix_set(groups, tokens, k - 1).union(token_members(groups, tokens[k - 1]))
    }
}

/// The resolved member set of a group with the given member tokens.
pub open spec fn resolved_set(
    groups: Seq<(Seq<char>, Seq<Seq<char>>)>,
    tokens: Seq<Seq<char>>,
) -> Set<Seq<char>> {
    resolved_prefix_set(groups, tokens, tokens.len() as int)
}

/// The literal handles across the first `g` groups.
pub open spec fn all_literals_prefix(groups: Seq<(Seq<char>, Seq<Seq<char>>)>, g: int) -> Set<
    Seq<char>,
>
    decreases g,
{
    if g <= 0 {
        Set::empty()
    } else {
        all_literals_prefix(groups, g - 1).union(literal_set(groups[g - 1].1))
    }
}

/// The literal handles across all groups: the users permitted to trigger
/// pings.
pub open spec fn all_literals(groups: Seq<(Seq<char>, Seq<Seq<char>>)>) -> Set<Seq<char>> {
    all_literals_prefix(groups, groups.len() as int)
}

/// Whether every token of a group that resolution reads as a user handle —
/// every non-alias token — is a well-formed handle.
pub open spec fn tokens_ok(tokens: Seq<Seq<char>>) -> bool {
    forall|t: int|
        0 <= t < tokens.len() ==> (!is_alias(#[trigger] tokens[t]) ==> validators::user_id_valid(
            tokens[t],
        ))
}

/// Whether some group holds a malformed handle token: the fatal case of
/// resolution.
pub open spec fn has_bad_token(groups: Seq<(Seq<char>, Seq<Seq<char>>)>) -> bool {
    exists|g: int| 0 <= g < groups.len() && !tokens_ok(#[trigger] groups[g].1)
}

/// A lookup that has not matched among the first `i` groups continues on the
/// remainder of the mapping.
proof fn lemma_lookup_skip(groups: Seq<(Seq<char>, Seq<Seq<char>>)>, name: Seq<char>, i: int)
    requires
        0 <= i <= groups.len(),
        forall|j: int| 0 <= j < i ==> (#[trigger] groups[j]).0 != name,
    ensures
        lookup(groups, name) == lookup(groups.skip(i), name),
    decreases i,
{
    if i > 0 {
        assert(groups[0].0 != name);
        lemma_lookup_skip(groups.skip(1), name, i - 1);
        assert(forall|j: int|
            0 <= j < i - 1 ==> (#[trigger] groups.skip(1)[j]).0 == groups[j + 1].0);
        assert(groups.skip(1).skip(i - 1) =~= groups.skip(i));
    } else {
        assert(groups.skip(0) =~= groups);
    }
}

/// Finds the first group with the given name in the raw mapping.
fn find_group<'a>(v: &'a Vec<(String, Vec<String>)>, name: &String) -> (r: Option<&'a Vec<
    String,
>>)
    ensures
        match r {
            Some(ts) => lookup(v.deep_view(), name@) == Some(ts.deep_view()),
            None => lookup(v.deep_view(), name@) is None,
        },
{
    let ghost groups = v.deep_view();
    let mut i: usize = 0;
    while i < v.len()
        invariant
            i <= v@.len(),
            groups == v.deep_view(),
            groups.len() == v@.len(),
            forall|j: int| 0 <= j < i ==> (#[trigger] groups[j]).0 != name@,
        decreases v@.len() - i,
    {
        if v[i].0.eq(name) {
            proof {
                assert(groups[i as int].0 == v@[i as int].0@);
                lemma_lookup_skip(groups, name@, i as int);
                assert(groups.skip(i as int)[0] == groups[i as int]);
                assert(groups.skip(i as int).len() > 0);
                assert(lookup(groups, name@) == Some(groups[i as int].1));
                assert(groups[i as int].1 == v@[i as int].1.deep_view());
            }
            return Some(&v[i].1);
        }
        proof {
            assert(groups[i as int].0 == v@[i as int].0@);
        }
        i = i + 1;
    }
    proof {
        lemma_lookup_skip(groups, name@, groups.len() as int);
        assert(groups.skip(groups.len() as int) =~= Seq::<(Seq<char>, Seq<Seq<char>>)>::empty());
    }
    None
}

/// First pass: collects, across all groups, the set of literal handles —
/// the users permitted to trigger pings — validating each one.
fn collect_ping_users(v: &Vec<(String, Vec<String>)>) -> (r: Result<Vec<String>, ConfigError>)
    ensures
        match r {
            Ok(users) => users.deep_view().to_set() == all_literals(v.deep_view())
                && strutil::distinct_strs(users.deep_view()),
            Err(e) => e == ConfigError::BadGroupPingUser && has_bad_token(v.deep_view()),
        },
{
    let ghost groups = v.deep_view();
    let mut users: Vec<String> = Vec::new();
    let mut g: usize = 0;
    while g < v.len()
        invariant
            g <= v@.len(),
            groups == v.deep_view(),
            groups.len() == v@.len(),
            users.deep_view().to_set() == all_literals_prefix(groups, g as int),
            strutil::distinct_strs(users.deep_view()),
        decreases v@.len() - g,
    {
        let tokens = &v[g].1;
        proof {
            assert(groups[g as int].1 == tokens.deep_view());
        }
        let mut t: usize = 0;
        while t < tokens.len()
            invariant
                t <= tokens@.len(),
                g < v@.len(),
                groups == v.deep_view(),
                groups.len() == v@.len(),
                groups[g as int].1 == tokens.deep_view(),
                tokens.deep_view().len() == tokens@.len(),
                users.deep_view().to_set() == all_literals_prefix(groups, g as int).union(
                    literal_prefix_set(tokens.deep_view(), t as int),
                ),
                strutil::distinct_strs(users.deep_view()),
            decreases tokens@.len() - t,
        {
            let tok = &tokens[t];
            let ghost tokview = tokens.deep_view()[t as int];
            proof {
                assert(tokview == tokens@[t as int]@);
            }
            if strutil::starts_with_char(tok, '@') {
                if !validators::user_id_ok(tok.as_str()) {
                    proof {
                        assert(!is_alias(tokview) && !validators::user_id_valid(tokview));
                        assert(!tokens_ok(groups[g as int].1));
                    }
                    return Err(ConfigError::BadGroupPingUser);
                }
                strutil::push_unique(&mut users, tok);
                proof {
                    assert(is_literal(tokview));
                    assert(literal_prefix_set(tokens.deep_view(), t + 1) == literal_prefix_set(
                        tokens.deep_view(),
                        t as int,
                    ).insert(tokview));
                    assert(users.deep_view().to_set() =~= all_literals_prefix(groups, g as int)
                        .union(literal_prefix_set(tokens.deep_view(), t + 1)));
                }
            } else {
                proof {
                    assert(!is_literal(tokview));
                    assert(literal_prefix_set(tokens.deep_view(), t + 1) == literal_prefix_set(
                        tokens.deep_view(),
                        t as int,
                    ));
                }
            }
            t = t + 1;
        }
        proof {
            assert(literal_prefix_set(tokens.deep_view(), tokens.deep_view().len() as int)
                == literal_set(tokens.deep_view()));
            assert(all_literals_prefix(groups, g + 1) == all_literals_prefix(groups, g as int)
                .union(literal_set(groups[g as int].1)));
        }
        g = g + 1;
    }
    Ok(users)
}

/// Second pass, for one group: builds its resolved member set.  Literal and
/// other non-alias tokens are validated and inserted directly; an alias
/// inserts the literal handles of the group it names, taken from the raw
/// mapping, or nothing if no such group exists.
fn expand_group(v: &Vec<(String, Vec<String>)>, tokens: &Vec<String>) -> (r: Result<
    Vec<String>,
    ConfigError,
>)
    ensures
        match r {
            Ok(members) => members.deep_view().to_set() == resolved_set(
                v.deep_view(),
                tokens.deep_view(),
            ) && tokens_ok(tokens.deep_view()) && strutil::distinct_strs(members.deep_view()),
            Err(e) => e == ConfigError::BadGroupPingUser && !tokens_ok(tokens.deep_view()),
        },
{
    let ghost groups = v.deep_view();
    let ghost toks = tokens.deep_view();
    let mut members: Vec<String> = Vec::new();
    let mut t: usize = 0;
    while t < tokens.len()
        invariant
            t <= tokens@.len(),
            groups == v.deep_view(),
            toks == tokens.deep_view(),
            toks.len() == tokens@.len(),
            members.deep_view().to_set() == resolved_prefix_set(groups, toks, t as int),
            strutil::distinct_strs(members.deep_view()),
            forall|k: int|
                0 <= k < t ==> (!is_alias(#[trigger] toks[k]) ==> validators::user_id_valid(
                    toks[k],
                )),
        decreases tokens@.len() - t,
    {
        let tok = &tokens[t];
        let ghost tokview = toks[t as int];
        proof {
            assert(tokview == tokens@[t as int]@);
        }
        if strutil::starts_with_char(tok, '%') {
            let name = strutil::remove_char(tok, '%');
            proof {
                assert(is_alias(tokview));
                assert(name@ == alias_name(tokview));
            }
            match find_group(v, &name) {
                Some(ts) => {
                    let ghost tsview = ts.deep_view();
                    let mut u: usize = 0;
                    while u < ts.len()
                        invariant
                            u <= ts@.len(),
                            tsview == ts.deep_view(),
                            tsview.len() == ts@.len(),
                            groups == v.deep_view(),
                            toks == tokens.deep_view(),
                            t < toks.len(),
                            members.deep_view().to_set() == resolved_prefix_set(
                                groups,
                                toks,
                                t as int,
                            ).union(literal_prefix_set(tsview, u as int)),
                            strutil::distinct_strs(members.deep_view()),
                        decreases ts@.len() - u,
                    {
                        let ghost uview = tsview[u as int];
                        proof {
                            assert(uview == ts@[u as int]@);
                        }
                        if strutil::starts_with_char(&ts[u], '@') {
                            strutil::push_unique(&mut members, &ts[u]);
                            proof {
                                assert(is_literal(uview));
                                assert(literal_prefix_set(tsview, u + 1) == literal_prefix_set(
                                    tsview,
                                    u as int,
                                ).insert(uview));
                                assert(members.deep_view().to_set() =~= resolved_prefix_set(
                                    groups,
                                    toks,
                                    t as int,
                                ).union(literal_prefix_set(tsview, u + 1)));
                            }
                        } else {
                            proof {
                                assert(!is_literal(uview));
                                assert(literal_prefix_set(tsview, u + 1) == literal_prefix_set(
                                    tsview,
                                    u as int,
                                ));
                            }
                        }
                        u = u + 1;
                    }
                    proof {
                        assert(literal_prefix_set(tsview, tsview.len() as int) == literal_set(
                            tsview,
                        ));
                        assert(token_members(groups, tokview) == literal_set(tsview));
                        assert(resolved_prefix_set(groups, toks, t + 1) == resolved_prefix_set(
                            groups,
                            toks,
                            t as int,
                        ).union(token_members(groups, tokview)));
                    }
                },
                None => {
                    proof {
                        assert(token_members(groups, tokview) =~= Set::<Seq<char>>::empty());
                        assert(resolved_prefix_set(groups, toks, t + 1) =~= resolved_prefix_set(
                            groups,
                            toks,
                            t as int,
                        ));
                    }
                },
            }
        } else {
            if !validators::user_id_ok(tok.as_str()) {
                proof {
                    assert(!is_alias(tokview) && !validators::user_id_valid(tokview));
                }
                return Err(ConfigError::BadGroupPingUser);
            }
            strutil::push_unique(&mut members, tok);
            proof {
                assert(token_members(groups, tokview) =~= Set::<Seq<char>>::empty().insert(
                    tokview,
                ));
                assert(resolved_prefix_set(groups, toks, t + 1) == resolved_prefix_set(
                    groups,
                    toks,
                    t as int,
                ).union(token_members(groups, tokview)));
                assert(members.deep_view().to_set() =~= resolved_prefix_set(groups, toks, t + 1));
            }
        }
        t = t + 1;
    }
    Ok(members)
}

/// Resolves the group-ping feature.  The first pass collects the literal
/// handles of all groups — the users permitted to trigger pings; the second
/// pass resolves each group's member set, expanding aliases one level deep
/// against the raw mapping.  A malformed handle token is fatal; an alias
/// that names no group is dropped with a warning by the caller.  An absent
/// section disables the feature.
pub fn load_group_ping_settings(toml: &crate::config::RawConfig) -> (r: Result<
    (Vec<(String, Vec<String>)>, Vec<String>),
    ConfigError,
>)
    ensures
        match toml.group_pings {
            Some(v) => match r {
                Ok(p) => {
                    &&& !has_bad_token(v.deep_view())
                    &&& p.0@.len() == v@.len()
                    &&& forall|g: int|
                        0 <= g < v@.len() ==> (#[trigger] p.0.deep_view()[g]).0
                            == v.deep_view()[g].0
                    &&& forall|g: int|
                        0 <= g < v@.len() ==> (#[trigger] p.0.deep_view()[g]).1.to_set()
                            == resolved_set(v.deep_view(), v.deep_view()[g].1)
                    &&& forall|g: int|
                        0 <= g < v@.len() ==> strutil::distinct_strs(
                            (#[trigger] p.0.deep_view()[g]).1,
                        )
                    &&& p.1.deep_view().to_set() == all_literals(v.deep_view())
                    &&& strutil::distinct_strs(p.1.deep_view())
                },
                Err(e) => e == ConfigError::BadGroupPingUser && has_bad_token(v.deep_view()),
            },
            None => r matches Ok(p) && p.0@.len() == 0 && p.1@.len() == 0,
        },
        r is Err <==> (toml.group_pings matches Some(v) && has_bad_token(v.deep_view())),
{
    match &toml.group_pings {
        Some(v) => {
            let ghost groups = v.deep_view();
            let users = match collect_ping_users(v) {
                Ok(u) => u,
                Err(e) => {
                    return Err(e);
                },
            };
            let mut out: Vec<(String, Vec<String>)> = Vec::new();
            let mut g: usize = 0;
            while g < v.len()
                invariant
                    g <= v@.len(),
                    groups == v.deep_view(),
                    groups.len() == v@.len(),
                    toml.group_pings matches Some(gv) && gv == *v,
                    out@.len() == g,
                    forall|k: int|
                        0 <= k < g ==> (#[trigger] out.deep_view()[k]).0 == groups[k].0,
                    forall|k: int|
                        0 <= k < g ==> (#[trigger] out.deep_view()[k]).1.to_set() == resolved_set(
                            groups,
                            groups[k].1,
                        ),
                    forall|k: int|
                        0 <= k < g ==> strutil::distinct_strs((#[trigger] out.deep_view()[k]).1),
                    forall|k: int| 0 <= k < g ==> tokens_ok(#[trigger] groups[k].1),
                decreases v@.len() - g,
            {
                proof {
                    assert(groups[g as int].1 == v@[g as int].1.deep_view());
                }
                let members = match expand_group(v, &v[g].1) {
                    Ok(m) => m,
                    Err(e) => {
                        proof {
                            assert(!tokens_ok(groups[g as int].1));
                        }
                        return Err(e);
                    },
                };
                let ghost members_view = members.deep_view();
                let ghost out_raw = out@;
                let ghost out_deep = out.deep_view();
                out.push((v[g].0.clone(), members));
                proof {
                    assert(groups[g as int].0 == v@[g as int].0@);
                    assert(out.deep_view()[g as int].0 == groups[g as int].0);
                    assert(out.deep_view()[g as int].1 == members_view);
                    assert forall|k: int| 0 <= k < g + 1 implies (#[trigger] out.deep_view()[k]).0
                        == groups[k].0 && out.deep_view()[k].1.to_set() == resolved_set(
                        groups,
                        groups[k].1,
                    ) && strutil::distinct_strs(out.deep_view()[k].1) by {
                        if k < g {
                            assert(out@[k] == out_raw[k]);
                            assert(out.deep_view()[k] == out_deep[k]);
                        }
                    }
                }
                g = g + 1;
            }
            proof {
                assert(!has_bad_token(groups));
            }
            Ok((out, users))
        },
        None => Ok((Vec::new(), Vec::new())),
    }
}

} // verus!
