use vstd::prelude::*;

verus! {

/// A single probe target.
#[derive(Clone, Debug)]
pub struct ConfigProbeServiceNode {
    pub id: String,
}

/// An intermediate grouping of nodes within a service.
#[derive(Clone, Debug)]
pub struct ConfigProbeServiceGroup {
    pub id: String,
    pub node: Vec<ConfigProbeServiceNode>,
}

/// A top-level monitored unit, owning nodes directly and/or through groups.
#[derive(Clone, Debug)]
pub struct ConfigProbeService {
    pub id: String,
    pub node: Option<Vec<ConfigProbeServiceNode>>,
    pub group: Option<Vec<ConfigProbeServiceGroup>>,
}

#[derive(Clone, Debug)]
pub struct ConfigProbe {
    pub service: Vec<ConfigProbeService>,
}

#[derive(Clone, Debug)]
pub struct Config {
    pub probe: ConfigProbe,
}

/// The container within which an identifier was found twice.
#[derive(Clone, Copy, Debug, PartialEq, Eq, Structural)]
pub enum IdentifierScope {
    Service,
    NodeInService,
    GroupInService,
    NodeInGroup,
}

/// The first identifier found twice in its scope, with the ids of the
/// containers that enclose it.
#[derive(Clone, Debug)]
pub struct DuplicateIdentifier {
    pub scope: IdentifierScope,
    pub id: String,
    pub service: Option<String>,
    pub group: Option<String>,
}

/// Abstract form of a duplicate: scope, id, service id, group id.
pub type DuplicateView = (IdentifierScope, Seq<char>, Option<Seq<char>>, Option<Seq<char>>);

pub open spec fn opt_str_view(o: Option<String>) -> Option<Seq<char>> {
    match o {
        Some(s) => Some(s@),
        None => None,
    }
}

impl View for DuplicateIdentifier {
    type V = DuplicateView;

    open spec fn view(&self) -> DuplicateView {
        (self.scope, self.id@, opt_str_view(self.service), opt_str_view(self.group))
    }
}

/// Absent collections count as empty ones.
pub open spec fn nodes_of(o: Option<Vec<ConfigProbeServiceNode>>) -> Seq<ConfigProbeServiceNode> {
    match o {
        Some(v) => v@,
        None => Seq::empty(),
    }
}

pub open spec fn groups_of(o: Option<Vec<ConfigProbeServiceGroup>>) -> Seq<ConfigProbeServiceGroup> {
    match o {
        Some(v) => v@,
        None => Seq::empty(),
    }
}

pub open spec fn node_ids(nodes: Seq<ConfigProbeServiceNode>) -> Seq<Seq<char>> {
    nodes.map_values(|n: ConfigProbeServiceNode| n.id@)
}

pub open spec fn group_ids(groups: Seq<ConfigProbeServiceGroup>) -> Seq<Seq<char>> {
    groups.map_values(|g: ConfigProbeServiceGroup| g.id@)
}

pub open spec fn service_ids(services: Seq<ConfigProbeService>) -> Seq<Seq<char>> {
    services.map_values(|s: ConfigProbeService| s.id@)
}

} // verus!
