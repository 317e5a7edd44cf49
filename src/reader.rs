use std::collections::HashMap;
use vstd::prelude::*;
use vstd::string::StringSliceAdditionalSpecFns;

use crate::config::{
    group_ids, groups_of, node_ids, nodes_of, service_ids, Config, ConfigProbeService,
    ConfigProbeServiceGroup, ConfigProbeServiceNode, DuplicateIdentifier, DuplicateView,
    IdentifierScope,
};
use crate::substitution::{
    defines, find_placeholder, first_placeholder_from, has_placeholder_from, has_reserved_char,
    is_name_byte,
    lemma_placeholder_end, lookup_variable, name_at, name_of, placeholder_at, replace_all,
    substitute_variable, value_of, var_pattern,
};
use crate::scope::{distinct, first_repeat, lemma_first_repeat_none, lemma_first_repeat_stable, SeenIds};

verus! {

/// Loads and checks the monitored topology.
pub struct ConfigReader;

/// Why environment placeholders could not be resolved.
#[derive(Clone, Debug, PartialEq, Eq)]
pub enum SubstitutionError {
    /// A variable that the text uses holds one of `$`, `{`, `}`.
    InvalidVariable,
    /// A `${NAME}` placeholder names no variable.
    UndefinedVariable { name: String },
}

/// The placeholder `b[i..j]` names no variable of `env`.
pub open spec fn undefined_at(b: Seq<u8>, env: Map<String, String>, i: int, j: int) -> bool {
    placeholder_at(b, i, j) && !defines(env, name_of(b, i, j))
}

/// The variable of the placeholder `b[i..j]` holds a reserved character.
pub open spec fn invalid_at(b: Seq<u8>, env: Map<String, String>, i: int, j: int) -> bool {
    placeholder_at(b, i, j) && (has_reserved_char(name_of(b, i, j)) || has_reserved_char(
        value_of(env, name_of(b, i, j)),
    ))
}

/// `t` once each placeholder of `b` from `from` on, in order, has had every
/// occurrence of its `${NAME}` in the text replaced by the variable's value.
pub open spec fn substituted_from(b: Seq<u8>, from: int, t: Seq<char>, env: Map<String, String>) -> Seq<char>
    decreases b.len() - from,
{
    if has_placeholder_from(b, from) {
        let (i, j) = choose|i: int, j: int| #[trigger] first_placeholder_from(b, from, i, j);
        if from < j <= b.len() {
            let name = name_of(b, i, j);
            substituted_from(b, j, replace_all(t, var_pattern(name), value_of(env, name)), env)
        } else {
            t
        }
    } else {
        t
    }
}

/// The result of substituting `env` into the text whose bytes are `b`.
pub open spec fn substituted(b: Seq<u8>, t: Seq<char>, env: Map<String, String>) -> Seq<char> {
    substituted_from(b, 0, t, env)
}

proof fn lemma_first_placeholder_exists(b: Seq<u8>, from: int)
    requires
        has_placeholder_from(b, from),
    ensures
        exists|i: int, j: int| first_placeholder_from(b, from, i, j),
    decreases b.len() - from,
{
    let (i0, j0) = choose|i: int, j: int| from <= i && placeholder_at(b, i, j);
    if exists|j: int| placeholder_at(b, from, j) {
        let j = choose|j: int| placeholder_at(b, from, j);
        assert(first_placeholder_from(b, from, from, j));
    } else {
        assert(has_placeholder_from(b, from + 1)) by {
            assert(i0 != from);
            assert(from + 1 <= i0 && placeholder_at(b, i0, j0));
        }
        lemma_first_placeholder_exists(b, from + 1);
        let (i, j) = choose|i: int, j: int| #[trigger] first_placeholder_from(b, from + 1, i, j);
        assert(first_placeholder_from(b, from, i, j));
    }
}

/// No placeholder starts strictly inside the placeholder `b[i..j]`.
proof fn lemma_no_start_inside(b: Seq<u8>, i: int, j: int)
    requires
        placeholder_at(b, i, j),
    ensures
        forall|i2: int, j2: int| i < i2 < j ==> !#[trigger] placeholder_at(b, i2, j2),
{
    assert forall|i2: int, j2: int| i < i2 < j implies !#[trigger] placeholder_at(b, i2, j2) by {
        if i2 >= i + 2 && i2 < j - 1 {
            assert(is_name_byte(b[i2]));
        }
    }
}

/// The first duplicate among the nodes owned by one container.
pub open spec fn nodes_error(nodes: Seq<ConfigProbeServiceNode>) -> Option<int> {
    first_repeat(node_ids(nodes), nodes.len() as int)
}

/// What the `k`-th group of service `sid` violates, if anything: its id, then
/// its own nodes.
pub open spec fn group_error_at(sid: Seq<char>, groups: Seq<ConfigProbeServiceGroup>, k: int) -> Option<DuplicateView> {
    let g = groups[k];
    if group_ids(groups).take(k).contains(g.id@) {
        Some((IdentifierScope::GroupInService, g.id@, Some(sid), None))
    } else {
        match nodes_error(g.node@) {
            Some(j) => Some((IdentifierScope::NodeInGroup, node_ids(g.node@)[j], Some(sid), Some(g.id@))),
            None => None,
        }
    }
}

/// The first violation among the first `n` groups of service `sid`.
pub open spec fn groups_error(sid: Seq<char>, groups: Seq<ConfigProbeServiceGroup>, n: int) -> Option<DuplicateView>
    decreases n,
{
    if n <= 0 {
        None
    } else {
        match groups_error(sid, groups, n - 1) {
            Some(e) => Some(e),
            None => group_error_at(sid, groups, n - 1),
        }
    }
}

/// The first violation inside a service: its direct nodes, then its groups.
pub open spec fn service_inner_error(s: ConfigProbeService) -> Option<DuplicateView> {
    let ns = nodes_of(s.node);
    let gs = groups_of(s.group);
    match nodes_error(ns) {
        Some(j) => Some((IdentifierScope::NodeInService, node_ids(ns)[j], Some(s.id@), None)),
        None => groups_error(s.id@, gs, gs.len() as int),
    }
}

/// What the `k`-th service violates, if anything.
pub open spec fn service_error_at(services: Seq<ConfigProbeService>, k: int) -> Option<DuplicateView> {
    if service_ids(services).take(k).contains(services[k].id@) {
        Some((IdentifierScope::Service, services[k].id@, None, None))
    } else {
        service_inner_error(services[k])
    }
}

/// The first violation among the first `n` services.
pub open spec fn services_error(services: Seq<ConfigProbeService>, n: int) -> Option<DuplicateView>
    decreases n,
{
    if n <= 0 {
        None
    } else {
        match services_error(services, n - 1) {
            Some(e) => Some(e),
            None => service_error_at(services, n - 1),
        }
    }
}

/// The first uniqueness violation of a configuration in traversal order.
pub open spec fn config_error(config: Config) -> Option<DuplicateView> {
    services_error(config.probe.service@, config.probe.service@.len() as int)
}

/// `r` reports exactly the violation `e`, or success when there is none.
pub open spec fn reports(r: Result<(), DuplicateIdentifier>, e: Option<DuplicateView>) -> bool {
    match r {
        Ok(_) => e is None,
        Err(d) => e == Some(d@),
    }
}

proof fn lemma_groups_error_stable(sid: Seq<char>, gs: Seq<ConfigProbeServiceGroup>, i: int, n: int)
    requires
        0 <= i <= n,
        groups_error(sid, gs, i) is Some,
    ensures
        groups_error(sid, gs, n) == groups_error(sid, gs, i),
    decreases n - i,
{
    if i < n {
        lemma_groups_error_stable(sid, gs, i, n - 1);
    }
}

proof fn lemma_services_error_stable(ss: Seq<ConfigProbeService>, i: int, n: int)
    requires
        0 <= i <= n,
        services_error(ss, i) is Some,
    ensures
        services_error(ss, n) == services_error(ss, i),
    decreases n - i,
{
    if i < n {
        lemma_services_error_stable(ss, i, n - 1);
    }
}

/// Index of the first node whose id repeats an earlier one.
fn first_duplicate_node(nodes: &Vec<ConfigProbeServiceNode>) -> (r: Option<usize>)
    ensures
        match r {
            Some(j) => nodes_error(nodes@) == Some(j as int) && j < nodes@.len(),
            None => nodes_error(nodes@) is None,
        },
{
    let ghost ids = node_ids(nodes@);
    let mut seen = SeenIds::new();
    let mut i: usize = 0;
    while i < nodes.len()
        invariant
            i <= nodes@.len(),
            ids == node_ids(nodes@),
            seen@ == ids.take(i as int),
            first_repeat(ids, i as int) is None,
        decreases nodes.len() - i,
    {
        if !seen.insert(&nodes[i].id) {
            proof {
                lemma_first_repeat_stable(ids, i as int + 1, nodes@.len() as int);
            }
            return Some(i);
        }
        assert(ids.take(i as int + 1) =~= ids.take(i as int).push(ids[i as int]));
        i = i + 1;
    }
    None
}

fn validate_groups(service_id: &String, groups: &Vec<ConfigProbeServiceGroup>) -> (r: Result<(), DuplicateIdentifier>)
    ensures
        reports(r, groups_error(service_id@, groups@, groups@.len() as int)),
{
    let ghost ids = group_ids(groups@);
    let mut seen = SeenIds::new();
    let mut i: usize = 0;
    while i < groups.len()
        invariant
            i <= groups@.len(),
            ids == group_ids(groups@),
            seen@ == ids.take(i as int),
            groups_error(service_id@, groups@, i as int) is None,
        decreases groups.len() - i,
    {
        let group = &groups[i];
        if !seen.insert(&group.id) {
            proof {
                lemma_groups_error_stable(service_id@, groups@, i as int + 1, groups@.len() as int);
            }
            return Err(DuplicateIdentifier {
                scope: IdentifierScope::GroupInService,
                id: group.id.clone(),
                service: Some(service_id.clone()),
                group: None,
            });
        }
        match first_duplicate_node(&group.node) {
            Some(j) => {
                proof {
                    lemma_groups_error_stable(service_id@, groups@, i as int + 1, groups@.len() as int);
                }
                return Err(DuplicateIdentifier {
                    scope: IdentifierScope::NodeInGroup,
                    id: group.node[j].id.clone(),
                    service: Some(service_id.clone()),
                    group: Some(group.id.clone()),
                });
            },
            None => {},
        }
        assert(ids.take(i as int + 1) =~= ids.take(i as int).push(ids[i as int]));
        i = i + 1;
    }
    Ok(())
}

fn validate_service(service: &ConfigProbeService) -> (r: Result<(), DuplicateIdentifier>)
    ensures
        reports(r, service_inner_error(*service)),
{
    match &service.node {
        Some(nodes) => match first_duplicate_node(nodes) {
            Some(j) => {
                return Err(DuplicateIdentifier {
                    scope: IdentifierScope::NodeInService,
                    id: nodes[j].id.clone(),
                    service: Some(service.id.clone()),
                    group: None,
                });
            },
            None => {},
        },
        None => {
            assert(node_ids(nodes_of(service.node)) =~= Seq::<Seq<char>>::empty());
        },
    }
    match &service.group {
        Some(groups) => validate_groups(&service.id, groups),
        None => Ok(()),
    }
}

/// Every scope inside one service holds distinct ids: its direct nodes, its
/// groups, and the nodes of each group.
pub open spec fn service_scopes_distinct(s: ConfigProbeService) -> bool {
    let gs = groups_of(s.group);
    &&& distinct(node_ids(nodes_of(s.node)))
    &&& distinct(group_ids(gs))
    &&& forall|k: int| 0 <= k < gs.len() ==> distinct(#[trigger] node_ids(gs[k].node@))
}

/// Service ids are distinct and so is every scope within each service.
pub open spec fn scopes_distinct(config: Config) -> bool {
    let ss = config.probe.service@;
    &&& distinct(service_ids(ss))
    &&& forall|k: int| 0 <= k < ss.len() ==> service_scopes_distinct(#[trigger] ss[k])
}

proof fn lemma_first_repeat_all(s: Seq<Seq<char>>, n: int)
    requires
        0 <= n <= s.len(),
    ensures
        first_repeat(s, n) is None <==> (forall|k: int| 0 <= k < n ==> !(#[trigger] s.take(k)).contains(s[k])),
    decreases n,
{
    if n > 0 {
        lemma_first_repeat_all(s, n - 1);
    }
}

proof fn lemma_groups_none(sid: Seq<char>, gs: Seq<ConfigProbeServiceGroup>, n: int)
    requires
        0 <= n <= gs.len(),
    ensures
        groups_error(sid, gs, n) is None <==> (forall|k: int| 0 <= k < n ==> (#[trigger] group_error_at(sid, gs, k)) is None),
    decreases n,
{
    if n > 0 {
        lemma_groups_none(sid, gs, n - 1);
    }
}

proof fn lemma_services_none(ss: Seq<ConfigProbeService>, n: int)
    requires
        0 <= n <= ss.len(),
    ensures
        services_error(ss, n) is None <==> (forall|k: int| 0 <= k < n ==> (#[trigger] service_error_at(ss, k)) is None),
    decreases n,
{
    if n > 0 {
        lemma_services_none(ss, n - 1);
    }
}

proof fn lemma_distinct_ids(s: Seq<Seq<char>>)
    ensures
        first_repeat(s, s.len() as int) is None <==> distinct(s),
        distinct(s) <==> (forall|k: int| 0 <= k < s.len() ==> !(#[trigger] s.take(k)).contains(s[k])),
{
    lemma_first_repeat_none(s, s.len() as int);
    lemma_first_repeat_all(s, s.len() as int);
    assert(s.take(s.len() as int) =~= s);
}

proof fn lemma_service_inner_none(s: ConfigProbeService)
    ensures
        service_inner_error(s) is None <==> service_scopes_distinct(s),
{
    let ns = nodes_of(s.node);
    let gs = groups_of(s.group);
    let gids = group_ids(gs);
    lemma_distinct_ids(node_ids(ns));
    lemma_distinct_ids(gids);
    lemma_groups_none(s.id@, gs, gs.len() as int);
    assert forall|k: int| 0 <= k < gs.len() implies (nodes_error(gs[k].node@) is None <==> distinct(
        #[trigger] node_ids(gs[k].node@),
    )) by {
        lemma_distinct_ids(node_ids(gs[k].node@));
    }
    if service_scopes_distinct(s) {
        assert forall|k: int| 0 <= k < gs.len() implies (#[trigger] group_error_at(s.id@, gs, k)) is None by {
            assert(!gids.take(k).contains(gids[k]));
            assert(distinct(node_ids(gs[k].node@)));
        }
    }
    if service_inner_error(s) is None {
        assert forall|k: int| 0 <= k < gs.len() implies distinct(#[trigger] node_ids(gs[k].node@)) by {
            assert(group_error_at(s.id@, gs, k) is None);
        }
        assert forall|k: int| 0 <= k < gids.len() implies !(#[trigger] gids.take(k)).contains(gids[k]) by {
            assert(group_error_at(s.id@, gs, k) is None);
        }
    }
}

/// A configuration passes validation exactly when the ids are distinct
/// within every scope: among services, and inside each service among its
/// direct nodes, among its groups, and among the nodes of each group. Ids
/// shared across different scopes (a direct node and a group's node, or the
/// nodes of two groups) never make it fail.
pub proof fn lemma_valid_iff_scopes_distinct(config: Config)
    ensures
        config_error(config) is None <==> scopes_distinct(config),
{
    let ss = config.probe.service@;
    let ids = service_ids(ss);
    lemma_services_none(ss, ss.len() as int);
    lemma_distinct_ids(ids);
    assert forall|k: int| 0 <= k < ss.len() implies (service_inner_error(#[trigger] ss[k]) is None
        <==> service_scopes_distinct(ss[k])) by {
        lemma_service_inner_none(ss[k]);
    }
    if scopes_distinct(config) {
        assert forall|k: int| 0 <= k < ss.len() implies (#[trigger] service_error_at(ss, k)) is None by {
            assert(!ids.take(k).contains(ids[k]));
            assert(service_scopes_distinct(ss[k]));
        }
    }
    if config_error(config) is None {
        assert forall|k: int| 0 <= k < ss.len() implies service_scopes_distinct(#[trigger] ss[k]) by {
            assert(service_error_at(ss, k) is None);
        }
        assert forall|k: int| 0 <= k < ids.len() implies !(#[trigger] ids.take(k)).contains(ids[k]) by {
            assert(service_error_at(ss, k) is None);
        }
    }
}

/// Two services that share an id make validation fail, whatever else the
/// configuration holds.
pub proof fn lemma_repeated_service_fails(config: Config, i: int, j: int)
    requires
        0 <= i < j < config.probe.service@.len(),
        config.probe.service@[i].id@ == config.probe.service@[j].id@,
    ensures
        config_error(config) is Some,
{
    lemma_valid_iff_scopes_distinct(config);
    let ids = service_ids(config.probe.service@);
    assert(ids[i] == ids[j]);
}

/// When the `j`-th service repeats the id of an earlier one, and nothing
/// before it breaks a rule (earlier services have distinct ids and no
/// duplicate inside), validation fails on a duplicate service with that id.
pub proof fn lemma_repeated_service_reported(config: Config, i: int, j: int)
    requires
        0 <= i < j < config.probe.service@.len(),
        config.probe.service@[i].id@ == config.probe.service@[j].id@,
        distinct(service_ids(config.probe.service@).take(j)),
        forall|k: int| 0 <= k < j ==> service_scopes_distinct(#[trigger] config.probe.service@[k]),
    ensures
        config_error(config) == Some(
            (IdentifierScope::Service, config.probe.service@[j].id@, None::<Seq<char>>, None::<Seq<char>>),
        ),
{
    let ss = config.probe.service@;
    let ids = service_ids(ss);
    let p = ids.take(j);
    lemma_distinct_ids(p);
    lemma_services_none(ss, j);
    assert forall|k: int| 0 <= k < j implies (#[trigger] service_error_at(ss, k)) is None by {
        lemma_service_inner_none(ss[k]);
        assert(p.take(k) =~= ids.take(k));
        assert(p[k] == ids[k]);
    }
    assert(ids.take(j)[i] == ids[j]);
    assert(ids.take(j).contains(ids[j]));
    lemma_services_error_stable(ss, j + 1, ss.len() as int);
}

/// The repeat of `s[a]` at `b`, with nothing repeated before `b`, is the first.
proof fn lemma_first_repeat_at(s: Seq<Seq<char>>, a: int, b: int)
    requires
        0 <= a < b < s.len(),
        s[a] == s[b],
        distinct(s.take(b)),
    ensures
        first_repeat(s, s.len() as int) == Some(b),
{
    lemma_first_repeat_none(s, b);
    assert(s.take(b)[a] == s[b]);
    assert(s.take(b).contains(s[b]));
    lemma_first_repeat_stable(s, b + 1, s.len() as int);
}

/// Services before the `k`-th break no rule and its id is new, so what it
/// violates is what is found inside it.
proof fn lemma_services_clean_before(ss: Seq<ConfigProbeService>, k: int)
    requires
        0 <= k < ss.len(),
        distinct(service_ids(ss).take(k + 1)),
        forall|k2: int| 0 <= k2 < k ==> service_scopes_distinct(#[trigger] ss[k2]),
    ensures
        services_error(ss, k) is None,
        service_error_at(ss, k) == service_inner_error(ss[k]),
{
    let ids = service_ids(ss);
    let p = ids.take(k + 1);
    lemma_distinct_ids(p);
    lemma_services_none(ss, k);
    assert forall|k2: int| 0 <= k2 < k implies (#[trigger] service_error_at(ss, k2)) is None by {
        lemma_service_inner_none(ss[k2]);
        assert(p.take(k2) =~= ids.take(k2));
        assert(p[k2] == ids[k2]);
    }
    assert(p.take(k) =~= ids.take(k));
    assert(p[k] == ids[k]);
}

/// Two direct nodes of the `k`-th service sharing an id make validation
/// fail; when nothing before them breaks a rule (earlier services clean, ids
/// of services up to `k` distinct, direct nodes before the `b`-th distinct),
/// it fails on a duplicate node in that service with that id.
pub proof fn lemma_repeated_direct_node_reported(config: Config, k: int, a: int, b: int)
    requires
        0 <= k < config.probe.service@.len(),
        0 <= a < b < nodes_of(config.probe.service@[k].node).len(),
        nodes_of(config.probe.service@[k].node)[a].id@ == nodes_of(config.probe.service@[k].node)[b].id@,
        distinct(service_ids(config.probe.service@).take(k + 1)),
        forall|k2: int| 0 <= k2 < k ==> service_scopes_distinct(#[trigger] config.probe.service@[k2]),
        distinct(node_ids(nodes_of(config.probe.service@[k].node)).take(b)),
    ensures
        config_error(config) == Some(
            (
                IdentifierScope::NodeInService,
                nodes_of(config.probe.service@[k].node)[b].id@,
                Some(config.probe.service@[k].id@),
                None::<Seq<char>>,
            ),
        ),
{
    let ss = config.probe.service@;
    let ids = node_ids(nodes_of(ss[k].node));
    lemma_services_clean_before(ss, k);
    lemma_first_repeat_at(ids, a, b);
    lemma_services_error_stable(ss, k + 1, ss.len() as int);
}

/// Two nodes of the `g`-th group of the `k`-th service sharing an id make
/// validation fail; when nothing before them breaks a rule (earlier services
/// clean, ids of services up to `k` distinct, the service's direct nodes
/// distinct, ids of its groups up to `g` distinct, earlier groups' nodes
/// distinct, nodes of the group before the `b`-th distinct), it fails on a
/// duplicate node in that group with that id.
pub proof fn lemma_repeated_group_node_reported(config: Config, k: int, g: int, a: int, b: int)
    requires
        0 <= k < config.probe.service@.len(),
        0 <= g < groups_of(config.probe.service@[k].group).len(),
        0 <= a < b < groups_of(config.probe.service@[k].group)[g].node@.len(),
        groups_of(config.probe.service@[k].group)[g].node@[a].id@ == groups_of(
            config.probe.service@[k].group,
        )[g].node@[b].id@,
        distinct(service_ids(config.probe.service@).take(k + 1)),
        forall|k2: int| 0 <= k2 < k ==> service_scopes_distinct(#[trigger] config.probe.service@[k2]),
        distinct(node_ids(nodes_of(config.probe.service@[k].node))),
        distinct(group_ids(groups_of(config.probe.service@[k].group)).take(g + 1)),
        forall|g2: int|
            0 <= g2 < g ==> distinct(
                #[trigger] node_ids(groups_of(config.probe.service@[k].group)[g2].node@),
            ),
        distinct(node_ids(groups_of(config.probe.service@[k].group)[g].node@).take(b)),
    ensures
        config_error(config) == Some(
            (
                IdentifierScope::NodeInGroup,
                groups_of(config.probe.service@[k].group)[g].node@[b].id@,
                Some(config.probe.service@[k].id@),
                Some(groups_of(config.probe.service@[k].group)[g].id@),
            ),
        ),
{
    let ss = config.probe.service@;
    let s = ss[k];
    let gs = groups_of(s.group);
    let gids = group_ids(gs);
    let p = gids.take(g + 1);
    lemma_services_clean_before(ss, k);
    lemma_distinct_ids(node_ids(nodes_of(s.node)));
    lemma_distinct_ids(p);
    lemma_groups_none(s.id@, gs, g);
    assert forall|g2: int| 0 <= g2 < g implies (#[trigger] group_error_at(s.id@, gs, g2)) is None by {
        lemma_distinct_ids(node_ids(gs[g2].node@));
        assert(p.take(g2) =~= gids.take(g2));
        assert(p[g2] == gids[g2]);
    }
    assert(p.take(g) =~= gids.take(g));
    assert(p[g] == gids[g]);
    lemma_first_repeat_at(node_ids(gs[g].node@), a, b);
    lemma_groups_error_stable(s.id@, gs, g + 1, gs.len() as int);
    lemma_services_error_stable(ss, k + 1, ss.len() as int);
}

/// `e1` and `e2` agree on every variable that a placeholder of `b` names.
pub open spec fn agree_on_used(b: Seq<u8>, e1: Map<String, String>, e2: Map<String, String>) -> bool {
    forall|i: int, j: int|
        #[trigger] placeholder_at(b, i, j) ==> defines(e1, name_of(b, i, j)) == defines(e2, name_of(b, i, j))
            && value_of(e1, name_of(b, i, j)) == value_of(e2, name_of(b, i, j))
}

proof fn lemma_substituted_from_agree(b: Seq<u8>, from: int, t: Seq<char>, e1: Map<String, String>, e2: Map<String, String>)
    requires
        agree_on_used(b, e1, e2),
    ensures
        substituted_from(b, from, t, e1) == substituted_from(b, from, t, e2),
    decreases b.len() - from,
{
    if has_placeholder_from(b, from) {
        let (i, j) = choose|i: int, j: int| #[trigger] first_placeholder_from(b, from, i, j);
        if from < j <= b.len() {
            lemma_first_placeholder_exists(b, from);
            assert(placeholder_at(b, i, j));
            let name = name_of(b, i, j);
            lemma_substituted_from_agree(b, j, replace_all(t, var_pattern(name), value_of(e1, name)), e1, e2);
        }
    }
}

/// Substitution depends on the environment only through the variables that
/// the text names: two environments that agree on those give the same
/// undefined and invalid placeholders and the same substituted text. In
/// particular text without placeholders comes out the same under every
/// environment.
pub proof fn lemma_substitution_uses_named_variables(b: Seq<u8>, t: Seq<char>, e1: Map<String, String>, e2: Map<String, String>)
    requires
        agree_on_used(b, e1, e2),
    ensures
        forall|i: int, j: int| #[trigger] undefined_at(b, e1, i, j) == undefined_at(b, e2, i, j),
        forall|i: int, j: int| #[trigger] invalid_at(b, e1, i, j) == invalid_at(b, e2, i, j),
        substituted(b, t, e1) == substituted(b, t, e2),
{
    lemma_substituted_from_agree(b, 0, t, e1, e2);
}

impl ConfigReader {
    /// Resolves the `${NAME}` placeholders of `conf` against `environment`.
    /// Fails on the first placeholder whose variable is not defined; else,
    /// when a variable that the text uses holds `$`, `{` or `}`; else returns
    /// the text with every placeholder replaced. Variables that the text does
    /// not use play no part.
    pub fn substitute(conf: &str, environment: &HashMap<String, String>) -> (r: Result<
        String,
        SubstitutionError,
    >)
        ensures
            (r matches Err(SubstitutionError::UndefinedVariable { .. })) == exists|i: int, j: int|
                undefined_at(conf.spec_bytes(), environment@, i, j),
            r matches Err(SubstitutionError::UndefinedVariable { name }) ==> exists|i: int, j: int|
                #![trigger undefined_at(conf.spec_bytes(), environment@, i, j)]
                undefined_at(conf.spec_bytes(), environment@, i, j) && name@ == name_of(
                    conf.spec_bytes(),
                    i,
                    j,
                ) && forall|i2: int, j2: int|
                    #[trigger] undefined_at(conf.spec_bytes(), environment@, i2, j2) ==> i <= i2,
            (r matches Err(SubstitutionError::InvalidVariable)) == ((forall|i: int, j: int|
                !#[trigger] undefined_at(conf.spec_bytes(), environment@, i, j)) && exists|
                i: int,
                j: int,
            | #[trigger] invalid_at(conf.spec_bytes(), environment@, i, j)),
            r matches Ok(s) ==> s@ == substituted(conf.spec_bytes(), conf@, environment@),
            !has_placeholder_from(conf.spec_bytes(), 0) ==> r is Ok && r->Ok_0@ == conf@,
    {
        let bytes = conf.as_bytes();
        let ghost b = conf.spec_bytes();
        let ghost e = environment@;
        // Every placeholder must name a variable.
        let mut pos: usize = 0;
        loop
            invariant
                bytes@ == b,
                b == conf.spec_bytes(),
                e == environment@,
                forall|i2: int, j2: int| i2 < pos ==> !#[trigger] undefined_at(b, e, i2, j2),
            ensures
                forall|i2: int, j2: int| !#[trigger] undefined_at(b, e, i2, j2),
            decreases b.len() - pos,
        {
            match find_placeholder(bytes, pos) {
                None => {
                    assert forall|i2: int, j2: int| !#[trigger] undefined_at(b, e, i2, j2) by {
                        if i2 >= pos && placeholder_at(b, i2, j2) {
                            assert(has_placeholder_from(b, pos as int));
                        }
                    }
                    break;
                },
                Some((i, j)) => {
                    let name = name_at(conf, i, j);
                    if lookup_variable(environment, name).is_none() {
                        assert(undefined_at(b, e, i as int, j as int));
                        assert forall|i2: int, j2: int| #[trigger]
                            undefined_at(b, e, i2, j2) implies i <= i2 by {
                            if pos <= i2 {
                                assert(placeholder_at(b, i2, j2));
                            }
                        }
                        return Err(SubstitutionError::UndefinedVariable { name: name.to_owned() });
                    }
                    proof {
                        lemma_no_start_inside(b, i as int, j as int);
                        assert forall|i2: int, j2: int| i2 < j implies !#[trigger] undefined_at(b, e, i2, j2) by {
                            if i2 == i && placeholder_at(b, i2, j2) {
                                lemma_placeholder_end(b, i as int, j as int, j2);
                            }
                            if pos <= i2 && i2 < i {
                                assert(!placeholder_at(b, i2, j2));
                            }
                        }
                    }
                    pos = j;
                },
            }
        }
        // Replace them in order.
        let mut text = conf.to_owned();
        let mut pos: usize = 0;
        loop
            invariant
                bytes@ == b,
                b == conf.spec_bytes(),
                e == environment@,
                forall|i2: int, j2: int| !#[trigger] undefined_at(b, e, i2, j2),
                forall|i2: int, j2: int| i2 < pos ==> !#[trigger] invalid_at(b, e, i2, j2),
                substituted(b, conf@, e) == substituted_from(b, pos as int, text@, e),
            decreases b.len() - pos,
        {
            match find_placeholder(bytes, pos) {
                None => {
                    assert(substituted_from(b, pos as int, text@, e) == text@);
                    assert(!has_placeholder_from(b, 0) ==> substituted_from(b, 0, conf@, e) == conf@);
                    return Ok(text);
                },
                Some((i, j)) => {
                    let name = name_at(conf, i, j);
                    assert(!undefined_at(b, e, i as int, j as int));
                    let value = match lookup_variable(environment, name) {
                        Some(v) => v,
                        None => {
                            return Err(SubstitutionError::InvalidVariable);
                        },
                    };
                    proof {
                        let k = choose|k: String| #[trigger] e.contains_key(k) && k@ == name@;
                        assert(e[k] == *value);
                        assert(value_of(e, name@) == value@);
                        lemma_first_placeholder_exists(b, pos as int);
                        let (ci, cj) = choose|ci: int, cj: int| #[trigger] first_placeholder_from(b, pos as int, ci, cj);
                        assert(ci == i);
                        lemma_placeholder_end(b, i as int, j as int, cj);
                        lemma_no_start_inside(b, i as int, j as int);
                    }
                    match substitute_variable(text.as_str(), name, value.as_str()) {
                        Ok(next) => {
                            proof {
                                assert forall|i2: int, j2: int| i2 < j implies !#[trigger] invalid_at(b, e, i2, j2) by {
                                    if i2 == i && placeholder_at(b, i2, j2) {
                                        lemma_placeholder_end(b, i as int, j as int, j2);
                                    }
                                    if pos <= i2 && i2 < i {
                                        assert(!placeholder_at(b, i2, j2));
                                    }
                                }
                            }
                            text = next;
                            pos = j;
                        },
                        Err(_) => {
                            assert(invalid_at(b, e, i as int, j as int));
                            return Err(SubstitutionError::InvalidVariable);
                        },
                    }
                },
            }
        }
    }

    /// Checks every uniqueness rule of the configuration and reports the
    /// first violation met in traversal order.
    pub fn validate(config: &Config) -> (r: Result<(), DuplicateIdentifier>)
        ensures
            reports(r, config_error(*config)),
            r is Ok <==> scopes_distinct(*config),
    {
        proof {
            lemma_valid_iff_scopes_distinct(*config);
        }
        Self::validate_identifiers(config)
    }

    /// Walks services in order; within each, its direct nodes, then each group
    /// followed by that group's nodes. Every container has a scope of its own.
    pub fn validate_identifiers(config: &Config) -> (r: Result<(), DuplicateIdentifier>)
        ensures
            reports(r, config_error(*config)),
    {
        let services = &config.probe.service;
        let ghost ids = service_ids(services@);
        let mut seen = SeenIds::new();
        let mut i: usize = 0;
        while i < services.len()
            invariant
                i <= services@.len(),
                services == &config.probe.service,
                ids == service_ids(services@),
                seen@ == ids.take(i as int),
                services_error(services@, i as int) is None,
            decreases services.len() - i,
        {
            let service = &services[i];
            if !seen.insert(&service.id) {
                proof {
                    lemma_services_error_stable(services@, i as int + 1, services@.len() as int);
                }
                return Err(DuplicateIdentifier {
                    scope: IdentifierScope::Service,
                    id: service.id.clone(),
                    service: None,
                    group: None,
                });
            }
            let checked = validate_service(service);
            if checked.is_err() {
                proof {
                    lemma_services_error_stable(services@, i as int + 1, services@.len() as int);
                }
                return checked;
            }
            assert(ids.take(i as int + 1) =~= ids.take(i as int).push(ids[i as int]));
            i = i + 1;
        }
        Ok(())
    }
}

} // verus!
