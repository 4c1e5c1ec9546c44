use vstd::prelude::*;
use crate::graph::{
    Graph, GraphWalker, acyclic, dependency_chain, distinct_nodes, occurs_before, reaches_cycle, lemma_taint_covers_ordered, lemma_taint_total_acyclic,
    respects, sorted_order, taint, unmarked_ids,
};

verus! {

#[derive(Debug)]
pub struct ProjectConfig {
    pub name: String,
}

#[derive(Debug)]
pub struct LinkConfig {
    pub contract_id: String,
}

/// A contract of the project: where its source lives and the names of the contracts it
/// depends on.
#[derive(Debug)]
pub struct ContractConfig {
    pub path: String,
    pub depends_on: Vec<String>,
}

#[derive(Debug)]
pub struct NotebookConfig {
    pub name: String,
    pub path: String,
}

/// The project's configuration. `contracts` is the roster of contracts in iteration
/// order, each name at most once.
#[derive(Debug)]
pub struct MainConfig {
    pub project: ProjectConfig,
    pub links: Option<Vec<LinkConfig>>,
    pub contracts: Option<Vec<(String, ContractConfig)>>,
}

#[derive(Debug)]
pub struct ProjectConfigFile {
    pub name: String,
}

/// A configuration value as read from the project file: what the roster is built from.
#[derive(Debug)]
pub enum ConfigValue {
    Text(String),
    List(Vec<ConfigValue>),
    Table(Vec<(String, ConfigValue)>),
    Other,
}

/// The project file before interpretation: the project section, and the `links` and
/// `contracts` values as written.
#[derive(Debug)]
pub struct MainConfigFile {
    pub project: ProjectConfigFile,
    pub links: Option<ConfigValue>,
    pub contracts: Option<ConfigValue>,
}

/// Why a roster cannot be ordered.
#[derive(Debug)]
pub enum ConfigError {
    /// `dependent` names `missing` as a dependency, and no contract has that name.
    UnknownDependency { dependent: String, missing: String },
    /// The contracts on a dependency cycle or depending on one, in roster order.
    Cycle { names: Vec<String> },
    /// The `contracts` entry `name` is not a table with a string `path` and an array of
    /// strings `depends_on`.
    MalformedEntry { name: String },
}

impl View for ContractConfig {
    type V = (Seq<char>, Seq<Seq<char>>);

    open spec fn view(&self) -> (Seq<char>, Seq<Seq<char>>) {
        (self.path@, self.depends_on@.map_values(|d: String| d@))
    }
}

/// The names of a roster, in order.
pub open spec fn roster_names(r: Seq<(String, ContractConfig)>) -> Seq<Seq<char>> {
    r.map_values(|e: (String, ContractConfig)| e.0@)
}

/// The dependency names of the `i`-th contract.
pub open spec fn roster_deps(r: Seq<(String, ContractConfig)>, i: int) -> Seq<Seq<char>> {
    r[i].1@.1
}

/// No name occurs twice.
pub open spec fn unique_names(names: Seq<Seq<char>>) -> bool {
    forall|i: int, j: int| 0 <= i < names.len() && 0 <= j < names.len() && names[i] == names[j] ==> i == j
}

/// Position of `name` among `names`.
pub open spec fn index_of(names: Seq<Seq<char>>, name: Seq<char>) -> int {
    choose|i: int| 0 <= i < names.len() && names[i] == name
}

/// The dependency graph of a roster: node `i` is the `i`-th contract, with an edge to
/// each contract that it names.
pub open spec fn roster_graph(r: Seq<(String, ContractConfig)>) -> Seq<Seq<usize>> {
    Seq::new(
        r.len(),
        |i: int| roster_deps(r, i).map_values(|d: Seq<char>| index_of(roster_names(r), d) as usize),
    )
}

/// Dependency `k` of contract `i` names no contract of the roster.
pub open spec fn unknown_dep(r: Seq<(String, ContractConfig)>, i: int, k: int) -> bool {
    !roster_names(r).contains(roster_deps(r, i)[k])
}

/// Every dependency of every contract names a contract of the roster.
pub open spec fn deps_known(r: Seq<(String, ContractConfig)>) -> bool {
    forall|i: int, k: int|
        0 <= i < r.len() && 0 <= k < roster_deps(r, i).len() ==> !#[trigger] unknown_dep(r, i, k)
}

/// Dependency `k` of contract `i` is the first unknown one in roster order.
pub open spec fn first_unknown(r: Seq<(String, ContractConfig)>, i: int, k: int) -> bool {
    &&& 0 <= i < r.len()
    &&& 0 <= k < roster_deps(r, i).len()
    &&& unknown_dep(r, i, k)
    &&& forall|i2: int, k2: int|
        0 <= i2 < r.len() && 0 <= k2 < roster_deps(r, i2).len() && (i2 < i || (i2 == i && k2 < k))
            ==> !#[trigger] unknown_dep(r, i2, k2)
}

/// The entries of `r` at the ids `ids`, in that order.
pub open spec fn entries_at(r: Seq<(String, ContractConfig)>, ids: Seq<usize>) -> Seq<
    (Seq<char>, (Seq<char>, Seq<Seq<char>>)),
> {
    ids.map_values(|id: usize| (r[id as int].0@, r[id as int].1@))
}

/// The names of `r` at the ids `ids`, in that order.
pub open spec fn names_at(r: Seq<(String, ContractConfig)>, ids: Seq<usize>) -> Seq<Seq<char>> {
    ids.map_values(|id: usize| r[id as int].0@)
}

/// What ordering a roster gives: the first unknown dependency, else the contracts on or
/// behind a cycle, else the depth-first order of the roster's graph.
pub open spec fn ordering_matches(
    r: Seq<(String, ContractConfig)>,
    res: Result<Seq<(Seq<char>, (Seq<char>, Seq<Seq<char>>))>, ConfigError>,
) -> bool {
    let g = roster_graph(r);
    let order = sorted_order(g);
    let t = taint(g, order, order.len() as int);
    match res {
        Err(ConfigError::UnknownDependency { dependent, missing }) => exists|i: int, k: int|
            first_unknown(r, i, k) && dependent@ == r[i].0@ && missing@ == roster_deps(r, i)[k],
        Err(ConfigError::Cycle { names }) => {
            &&& deps_known(r)
            &&& exists|x: int| 0 <= x < r.len() && !t[x]
            &&& names@.map_values(|s: String| s@) == names_at(r, unmarked_ids(t, r.len() as int))
        },
        Ok(entries) => {
            &&& deps_known(r)
            &&& forall|x: int| 0 <= x < r.len() ==> t[x]
            &&& entries == entries_at(r, order)
        },
        Err(ConfigError::MalformedEntry { .. }) => false,
    }
}

/// A roster as names with (path, dependency names).
pub open spec fn roster_view(r: Seq<(String, ContractConfig)>) -> Seq<(Seq<char>, (Seq<char>, Seq<Seq<char>>))> {
    r.map_values(|e: (String, ContractConfig)| (e.0@, e.1@))
}

/// `r` with the contract `name` set to `c`: replaced in place when present, else
/// appended.
pub open spec fn upsert(
    r: Seq<(Seq<char>, (Seq<char>, Seq<Seq<char>>))>,
    name: Seq<char>,
    c: (Seq<char>, Seq<Seq<char>>),
) -> Seq<(Seq<char>, (Seq<char>, Seq<Seq<char>>))> {
    if exists|i: int| 0 <= i < r.len() && r[i].0 == name {
        r.update(choose|i: int| 0 <= i < r.len() && r[i].0 == name, (name, c))
    } else {
        r.push((name, c))
    }
}

/// The value under the first entry called `key`.
pub open spec fn table_get(entries: Seq<(String, ConfigValue)>, key: Seq<char>) -> Option<ConfigValue>
    decreases entries.len(),
{
    if entries.len() == 0 {
        None
    } else if entries[0].0@ == key {
        Some(entries[0].1)
    } else {
        table_get(entries.drop_first(), key)
    }
}

/// The contract id of one entry of `links`: a table with a string `contract_id`.
pub open spec fn link_of(v: ConfigValue) -> Option<Seq<char>> {
    match v {
        ConfigValue::Table(e) => match table_get(e@, "contract_id"@) {
            Some(ConfigValue::Text(s)) => Some(s@),
            _ => None,
        },
        _ => None,
    }
}

/// The contract ids of the entries of `links` that have one, in order.
pub open spec fn links_of(items: Seq<ConfigValue>) -> Seq<Seq<char>>
    decreases items.len(),
{
    if items.len() == 0 {
        Seq::empty()
    } else {
        match link_of(items.last()) {
            Some(id) => links_of(items.drop_last()).push(id),
            None => links_of(items.drop_last()),
        }
    }
}

/// The strings of `items`, if every item is one.
pub open spec fn strings_of(items: Seq<ConfigValue>) -> Option<Seq<Seq<char>>>
    decreases items.len(),
{
    if items.len() == 0 {
        Some(Seq::empty())
    } else {
        match (strings_of(items.drop_last()), items.last()) {
            (Some(prev), ConfigValue::Text(s)) => Some(prev.push(s@)),
            _ => None,
        }
    }
}

/// One entry of `contracts`: a table with a string `path` and an array of strings
/// `depends_on`.
pub open spec fn contract_of(v: ConfigValue) -> Option<(Seq<char>, Seq<Seq<char>>)> {
    match v {
        ConfigValue::Table(e) => match (table_get(e@, "path"@), table_get(e@, "depends_on"@)) {
            (Some(ConfigValue::Text(p)), Some(ConfigValue::List(deps))) => match strings_of(deps@) {
                Some(d) => Some((p@, d)),
                None => None,
            },
            _ => None,
        },
        _ => None,
    }
}

/// Entry `i` of `contracts` is the first that does not describe a contract.
pub open spec fn first_malformed(entries: Seq<(String, ConfigValue)>, i: int) -> bool {
    &&& 0 <= i < entries.len()
    &&& contract_of(entries[i].1) is None
    &&& forall|j: int| 0 <= j < i ==> (#[trigger] contract_of(entries[j].1)) is Some
}

/// The roster that the entries of `contracts` give, in order, a later entry of the same
/// name replacing an earlier one.
pub open spec fn roster_of(entries: Seq<(String, ConfigValue)>) -> Seq<(Seq<char>, (Seq<char>, Seq<Seq<char>>))>
    decreases entries.len(),
{
    if entries.len() == 0 {
        Seq::empty()
    } else {
        let prev = roster_of(entries.drop_last());
        match contract_of(entries.last().1) {
            Some(c) => upsert(prev, entries.last().0@, c),
            None => prev,
        }
    }
}

fn clone_strings(v: &Vec<String>) -> (r: Vec<String>)
    ensures
        r@.map_values(|s: String| s@) == v@.map_values(|s: String| s@),
{
    let mut r: Vec<String> = Vec::new();
    let mut i: usize = 0;
    while i < v.len()
        invariant
            i <= v.len(),
            r@.len() == i,
            forall|j: int| 0 <= j < i ==> r@[j]@ == v@[j]@,
        decreases v.len() - i,
    {
        r.push(v[i].clone());
        i = i + 1;
    }
    assert(r@.map_values(|s: String| s@) =~= v@.map_values(|s: String| s@));
    r
}

impl ContractConfig {
    /// A copy with the same path and dependencies.
    pub fn duplicate(&self) -> (r: ContractConfig)
        ensures
            r@ == self@,
    {
        ContractConfig { path: self.path.clone(), depends_on: clone_strings(&self.depends_on) }
    }
}

/// Position of the contract called `name`, if any.
fn find_contract(r: &Vec<(String, ContractConfig)>, name: &String) -> (res: Option<usize>)
    ensures
        res matches Some(i) ==> i < r@.len() && r@[i as int].0@ == name@,
        res is None ==> !roster_names(r@).contains(name@),
{
    let mut i: usize = 0;
    while i < r.len()
        invariant
            i <= r@.len(),
            forall|j: int| 0 <= j < i ==> r@[j].0@ != name@,
        decreases r.len() - i,
    {
        if r[i].0 == *name {
            return Some(i);
        }
        i = i + 1;
    }
    proof {
        if roster_names(r@).contains(name@) {
            let j = choose|j: int| 0 <= j < roster_names(r@).len() && roster_names(r@)[j] == name@;
            assert(r@[j].0@ == name@);
        }
    }
    None
}

proof fn lemma_index_of(names: Seq<Seq<char>>, i: int)
    requires
        unique_names(names),
        0 <= i < names.len(),
    ensures
        index_of(names, names[i]) == i,
{
    let j = index_of(names, names[i]);
    assert(0 <= j < names.len() && names[j] == names[i]);
}

/// Sets the contract `name` to `c`: replaces it in place when present, else appends it.
/// Returns whether the name is new.
pub fn upsert_contract(roster: &mut Vec<(String, ContractConfig)>, name: String, c: ContractConfig) -> (added: bool)
    requires
        unique_names(roster_names(old(roster)@)),
    ensures
        roster_view(final(roster)@) == upsert(roster_view(old(roster)@), name@, c@),
        unique_names(roster_names(final(roster)@)),
        added == !roster_names(old(roster)@).contains(name@),
        final(roster)@.len() == old(roster)@.len() + if added {
            1int
        } else {
            0int
        },
{
    let ghost r0 = roster@;
    let ghost v0 = roster_view(r0);
    let ghost entry = (name@, c@);
    match find_contract(roster, &name) {
        Some(i) => {
            proof {
                assert(v0[i as int].0 == name@);
                let j = choose|j: int| 0 <= j < v0.len() && v0[j].0 == name@;
                assert(roster_names(r0)[j] == roster_names(r0)[i as int]);
                assert(roster_names(r0).contains(name@));
            }
            roster.set(i, (name, c));
            proof {
                assert(roster_view(roster@) =~= v0.update(i as int, entry));
                assert(roster_names(roster@) =~= roster_names(r0));
            }
            false
        },
        None => {
            proof {
                assert(!(exists|j: int| 0 <= j < v0.len() && v0[j].0 == name@)) by {
                    if exists|j: int| 0 <= j < v0.len() && v0[j].0 == name@ {
                        let j = choose|j: int| 0 <= j < v0.len() && v0[j].0 == name@;
                        assert(roster_names(r0)[j] == name@);
                    }
                }
            }
            roster.push((name, c));
            proof {
                assert(roster_view(roster@) =~= v0.push(entry));
                assert(roster_names(roster@) =~= roster_names(r0).push(entry.0));
                let ns = roster_names(roster@);
                assert forall|a: int, b: int| 0 <= a < ns.len() && 0 <= b < ns.len() && ns[a] == ns[b] implies a == b by {
                    if a == ns.len() - 1 && b < ns.len() - 1 {
                        assert(roster_names(r0)[b] == name@);
                    } else if b == ns.len() - 1 && a < ns.len() - 1 {
                        assert(roster_names(r0)[a] == name@);
                    }
                }
            }
            true
        },
    }
}

/// The value under the first entry called `key`.
fn table_lookup<'a>(entries: &'a Vec<(String, ConfigValue)>, key: &String) -> (r: Option<&'a ConfigValue>)
    ensures
        r matches Some(v) ==> table_get(entries@, key@) == Some(*v),
        r is None ==> table_get(entries@, key@) is None,
{
    let mut i: usize = 0;
    assert(entries@.subrange(0, entries@.len() as int) =~= entries@);
    while i < entries.len()
        invariant
            i <= entries@.len(),
            table_get(entries@, key@) == table_get(entries@.subrange(i as int, entries@.len() as int), key@),
        decreases entries.len() - i,
    {
        let ghost rest = entries@.subrange(i as int, entries@.len() as int);
        assert(rest.drop_first() =~= entries@.subrange(i + 1, entries@.len() as int));
        assert(rest[0] == entries@[i as int]);
        if entries[i].0 == *key {
            return Some(&entries[i].1);
        }
        i = i + 1;
    }
    None
}

proof fn lemma_strings_prefix_none(items: Seq<ConfigValue>, i: int)
    requires
        0 <= i <= items.len(),
        strings_of(items.subrange(0, i)) is None,
    ensures
        strings_of(items) is None,
    decreases items.len(),
{
    if i == items.len() {
        assert(items.subrange(0, i) =~= items);
    } else {
        assert(items.drop_last().subrange(0, i) =~= items.subrange(0, i));
        lemma_strings_prefix_none(items.drop_last(), i);
    }
}

/// The strings of `items`, if every item is one.
fn read_strings(items: &Vec<ConfigValue>) -> (r: Option<Vec<String>>)
    ensures
        r matches Some(v) ==> strings_of(items@) == Some(v@.map_values(|s: String| s@)),
        r is None ==> strings_of(items@) is None,
{
    let mut out: Vec<String> = Vec::new();
    let mut i: usize = 0;
    assert(items@.subrange(0, 0) =~= Seq::<ConfigValue>::empty());
    while i < items.len()
        invariant
            i <= items@.len(),
            strings_of(items@.subrange(0, i as int)) == Some(out@.map_values(|s: String| s@)),
        decreases items.len() - i,
    {
        let ghost next = items@.subrange(0, i + 1);
        assert(next.drop_last() =~= items@.subrange(0, i as int));
        assert(next.last() == items@[i as int]);
        match &items[i] {
            ConfigValue::Text(s) => {
                out.push(s.clone());
                assert(out@.map_values(|s: String| s@) =~= strings_of(items@.subrange(0, i as int))->Some_0.push(s@));
            },
            _ => {
                proof {
                    lemma_strings_prefix_none(items@, i + 1);
                }
                return None;
            },
        }
        i = i + 1;
    }
    assert(items@.subrange(0, items@.len() as int) =~= items@);
    Some(out)
}

/// The contract that one entry of `contracts` describes, if it is well formed.
fn read_contract(v: &ConfigValue) -> (r: Option<ContractConfig>)
    ensures
        r matches Some(c) ==> contract_of(*v) == Some(c@),
        r is None ==> contract_of(*v) is None,
{
    let settings = match v {
        ConfigValue::Table(settings) => settings,
        _ => return None,
    };
    let path_key = String::from_str("path");
    let deps_key = String::from_str("depends_on");
    proof {
        reveal_strlit("path");
        reveal_strlit("depends_on");
    }
    let path = match table_lookup(settings, &path_key) {
        Some(ConfigValue::Text(path)) => path.clone(),
        _ => return None,
    };
    let depends_on = match table_lookup(settings, &deps_key) {
        Some(ConfigValue::List(deps)) => match read_strings(deps) {
            Some(d) => d,
            None => return None,
        },
        _ => return None,
    };
    Some(ContractConfig { path, depends_on })
}

/// The contract id of one entry of `links`, if it has one.
fn read_link(v: &ConfigValue) -> (r: Option<LinkConfig>)
    ensures
        r matches Some(l) ==> link_of(*v) == Some(l.contract_id@),
        r is None ==> link_of(*v) is None,
{
    let settings = match v {
        ConfigValue::Table(settings) => settings,
        _ => return None,
    };
    let key = String::from_str("contract_id");
    proof {
        reveal_strlit("contract_id");
    }
    match table_lookup(settings, &key) {
        Some(ConfigValue::Text(id)) => Some(LinkConfig { contract_id: id.clone() }),
        _ => None,
    }
}

impl MainConfig {
    /// Interprets the project file: the links are the entries of `links` with a string
    /// `contract_id`; the contracts are the entries of `contracts` with a string `path` and
    /// an array of strings `depends_on`, a later entry of a name replacing an earlier one.
    /// Other entries are skipped.
    pub fn from_config_file(config_file: MainConfigFile) -> (r: Result<MainConfig, ConfigError>)
        ensures
            r matches Ok(cfg) ==> {
                &&& cfg.project.name == config_file.project.name
                &&& cfg.wf()
                &&& cfg.links matches Some(l) && l@.map_values(|x: LinkConfig| x.contract_id@)
                    == match config_file.links {
                    Some(ConfigValue::List(items)) => links_of(items@),
                    _ => Seq::empty(),
                }
                &&& cfg.contracts matches Some(c) && roster_view(c@) == match config_file.contracts {
                    Some(ConfigValue::Table(entries)) => roster_of(entries@),
                    _ => Seq::empty(),
                }
            },
            match config_file.contracts {
                Some(ConfigValue::Table(entries)) => {
                    &&& r is Err <==> exists|i: int|
                        0 <= i < entries@.len() && (#[trigger] contract_of(entries@[i].1)) is None
                    &&& r matches Err(e) ==> exists|i: int|
                        first_malformed(entries@, i) && e == (ConfigError::MalformedEntry {
                            name: entries@[i].0,
                        })
                },
                _ => r is Ok,
            },
    {
        let mut links: Vec<LinkConfig> = Vec::new();
        let ghost no_items = Seq::<ConfigValue>::empty();
        if let Some(ConfigValue::List(items)) = &config_file.links {
            let mut i: usize = 0;
            assert(items@.subrange(0, 0) =~= no_items);
            assert(links@.map_values(|x: LinkConfig| x.contract_id@) =~= Seq::<Seq<char>>::empty());
            while i < items.len()
                invariant
                    i <= items@.len(),
                    links@.map_values(|x: LinkConfig| x.contract_id@) == links_of(items@.subrange(0, i as int)),
                decreases items.len() - i,
            {
                let ghost next = items@.subrange(0, i + 1);
                assert(next.drop_last() =~= items@.subrange(0, i as int));
                assert(next.last() == items@[i as int]);
                if let Some(link) = read_link(&items[i]) {
                    links.push(link);
                }
                assert(links@.map_values(|x: LinkConfig| x.contract_id@) =~= links_of(next));
                i = i + 1;
            }
            assert(items@.subrange(0, items@.len() as int) =~= items@);
        } else {
            assert(links@.map_values(|x: LinkConfig| x.contract_id@) =~= Seq::<Seq<char>>::empty());
        }
        let mut contracts: Vec<(String, ContractConfig)> = Vec::new();
        assert(roster_view(contracts@) =~= Seq::empty());
        if let Some(ConfigValue::Table(entries)) = &config_file.contracts {
            let mut i: usize = 0;
            assert(entries@.subrange(0, 0) =~= Seq::<(String, ConfigValue)>::empty());
            while i < entries.len()
                invariant
                    i <= entries@.len(),
                    unique_names(roster_names(contracts@)),
                    roster_view(contracts@) == roster_of(entries@.subrange(0, i as int)),
                    forall|j: int| 0 <= j < i ==> (#[trigger] contract_of(entries@[j].1)) is Some,
                    config_file.contracts matches Some(ConfigValue::Table(x)) && x@ == entries@,
                decreases entries.len() - i,
            {
                let ghost next = entries@.subrange(0, i + 1);
                assert(next.drop_last() =~= entries@.subrange(0, i as int));
                assert(next.last() == entries@[i as int]);
                match read_contract(&entries[i].1) {
                    Some(c) => {
                        upsert_contract(&mut contracts, entries[i].0.clone(), c);
                    },
                    None => {
                        let name = entries[i].0.clone();
                        proof {
                            assert(first_malformed(entries@, i as int));
                            assert(contract_of(entries@[i as int].1) is None);
                        }
                        return Err(ConfigError::MalformedEntry { name });
                    },
                }
                i = i + 1;
            }
            assert(entries@.subrange(0, entries@.len() as int) =~= entries@);
        }
        Ok(
            MainConfig {
                project: ProjectConfig { name: config_file.project.name },
                links: Some(links),
                contracts: Some(contracts),
            },
        )
    }

    /// The contract names are unique.
    pub open spec fn wf(&self) -> bool {
        self.contracts matches Some(r) ==> unique_names(roster_names(r@))
    }

    /// The contracts ordered for deployment: each after the contracts it depends on.
    /// Fails on the first dependency that names no contract, and on a dependency cycle.
    pub fn ordered_contracts(&self) -> (res: Result<Vec<(String, ContractConfig)>, ConfigError>)
        requires
            self.wf(),
        ensures
            self.contracts is None ==> (res matches Ok(v) && v@.len() == 0),
            self.contracts matches Some(r) ==> ordering_matches(
                r@,
                match res {
                    Ok(v) => Ok(v@.map_values(|e: (String, ContractConfig)| (e.0@, e.1@))),
                    Err(e) => Err(e),
                },
            ),
            self.contracts matches Some(r) ==> (deps_known(r@) ==> (res is Ok <==> acyclic(
                roster_graph(r@),
            ))),
            self.contracts matches Some(r) ==> (res is Ok ==> respects(
                roster_graph(r@),
                sorted_order(roster_graph(r@)),
            )),
            self.contracts matches Some(r) ==> (res matches Err(ConfigError::Cycle { names }) ==> forall|x: int|
                0 <= x < r@.len() && #[trigger] reaches_cycle(roster_graph(r@), x) ==> names@.map_values(
                    |s: String| s@,
                ).contains(r@[x].0@)),
            self.contracts matches Some(r) ==> (res is Ok ==> forall|path: Seq<usize>, i: int|
                #![trigger dependency_chain(roster_graph(r@), path), sorted_order(roster_graph(r@))[i]]
                dependency_chain(roster_graph(r@), path) && 0 <= i < sorted_order(roster_graph(r@)).len()
                    && sorted_order(roster_graph(r@))[i] == path[0] ==> occurs_before(
                    sorted_order(roster_graph(r@)),
                    i,
                    path.last(),
                )),
    {
        let contracts = match &self.contracts {
            Some(contracts) => contracts,
            None => return Ok(Vec::new()),
        };
        let ghost r = contracts@;
        assert(self.contracts matches Some(cs) && cs@ == r);
        let ghost names = roster_names(r);
        let ghost gs = roster_graph(r);
        let n = contracts.len();
        let mut graph = Graph::new();
        let mut c: usize = 0;
        while c < n
            invariant
                n == r.len(),
                contracts@ == r,
                self.contracts matches Some(cs) && cs@ == r,
                names == roster_names(r),
                gs == roster_graph(r),
                unique_names(names),
                c <= n,
                graph@.len() == c,
                forall|i: int| 0 <= i < c ==> #[trigger] graph@[i] == gs[i],
                forall|i: int, k: int|
                    0 <= i < c && 0 <= k < roster_deps(r, i).len() ==> !#[trigger] unknown_dep(r, i, k),
            decreases n - c,
        {
            graph.add_node(c);
            let deps = &contracts[c].1.depends_on;
            let mut k: usize = 0;
            while k < deps.len()
                invariant
                    n == r.len(),
                    contracts@ == r,
                    self.contracts matches Some(cs) && cs@ == r,
                    names == roster_names(r),
                    gs == roster_graph(r),
                    unique_names(names),
                    c < n,
                    deps@ == r[c as int].1.depends_on@,
                    k <= deps@.len(),
                    graph@.len() == c + 1,
                    forall|i: int| 0 <= i < c ==> #[trigger] graph@[i] == gs[i],
                    graph@[c as int] == gs[c as int].subrange(0, k as int),
                    forall|i: int, k2: int|
                        0 <= i < c && 0 <= k2 < roster_deps(r, i).len() ==> !#[trigger] unknown_dep(r, i, k2),
                    forall|k2: int| 0 <= k2 < k ==> !#[trigger] unknown_dep(r, c as int, k2),
                decreases deps.len() - k,
            {
                assert(roster_deps(r, c as int)[k as int] == deps@[k as int]@);
                match find_contract(contracts, &deps[k]) {
                    Some(dep_id) => {
                        proof {
                            assert(names[dep_id as int] == deps@[k as int]@);
                            lemma_index_of(names, dep_id as int);
                            assert(gs[c as int][k as int] == dep_id);
                            assert(names.contains(roster_deps(r, c as int)[k as int]));
                        }
                        graph.add_directed_edge(c, dep_id);
                        assert(graph@[c as int] =~= gs[c as int].subrange(0, k + 1));
                    },
                    None => {
                        proof {
                            assert(first_unknown(r, c as int, k as int));
                        }
                        return Err(
                            ConfigError::UnknownDependency {
                                dependent: contracts[c].0.clone(),
                                missing: deps[k].clone(),
                            },
                        );
                    },
                }
                k = k + 1;
            }
            assert(graph@[c as int] =~= gs[c as int]);
            c = c + 1;
        }
        assert(graph@ =~= gs);
        proof {
            assert forall|u: int, k: int| 0 <= u < gs.len() && 0 <= k < gs[u].len() implies gs[u][k]
                < gs.len() by {
                assert(!unknown_dep(r, u, k));
                let d = roster_deps(r, u)[k];
                let j = choose|j: int| 0 <= j < names.len() && names[j] == d;
                lemma_index_of(names, j);
            }
        }
        let mut walker = GraphWalker::new();
        let sorted_indexes = walker.get_sorted_dependencies(&graph);
        let cyclic = walker.get_cycling_dependencies(&graph, &sorted_indexes);
        proof {
            if acyclic(gs) {
                lemma_taint_covers_ordered(gs, sorted_indexes@);
            }
            if cyclic is None {
                lemma_taint_total_acyclic(gs, sorted_indexes@);
            }
        }
        if let Some(ids) = cyclic {
            let mut names_out: Vec<String> = Vec::new();
            let mut j: usize = 0;
            while j < ids.len()
                invariant
                    contracts@ == r,
                    n == r.len(),
                    ids@ == unmarked_ids(
                        taint(gs, sorted_order(gs), sorted_order(gs).len() as int),
                        n as int,
                    ),
                    forall|m: int| 0 <= m < ids@.len() ==> #[trigger] ids@[m] < n,
                    j <= ids.len(),
                    names_out@.len() == j,
                    forall|m: int| 0 <= m < j ==> #[trigger] names_out@[m]@ == r[ids@[m] as int].0@,
                decreases ids.len() - j,
            {
                names_out.push(contracts[ids[j]].0.clone());
                j = j + 1;
            }
            assert(names_out@.map_values(|s: String| s@) =~= names_at(r, ids@));
            proof {
                let shown = names_out@.map_values(|s: String| s@);
                assert forall|x: int| 0 <= x < r.len() && #[trigger] reaches_cycle(gs, x) implies shown.contains(
                    r[x].0@,
                ) by {
                    assert(ids@.contains(x as usize));
                    let w = choose|w: int| 0 <= w < ids@.len() && ids@[w] == x as usize;
                    assert(shown[w] == r[x].0@);
                }
            }
            return Err(ConfigError::Cycle { names: names_out });
        }
        let mut dst: Vec<(String, ContractConfig)> = Vec::new();
        let mut j: usize = 0;
        while j < sorted_indexes.len()
            invariant
                contracts@ == r,
                n == r.len(),
                sorted_indexes@ == sorted_order(gs),
                distinct_nodes(sorted_indexes@, n as nat),
                j <= sorted_indexes.len(),
                dst@.len() == j,
                forall|m: int|
                    0 <= m < j ==> (#[trigger] dst@[m]).0@ == r[sorted_indexes@[m] as int].0@ && dst@[m].1@
                        == r[sorted_indexes@[m] as int].1@,
            decreases sorted_indexes.len() - j,
        {
            let id = sorted_indexes[j];
            let entry = &contracts[id];
            dst.push((entry.0.clone(), entry.1.duplicate()));
            j = j + 1;
        }
        assert(dst@.map_values(|e: (String, ContractConfig)| (e.0@, e.1@)) =~= entries_at(r, sorted_indexes@));
        Ok(dst)
    }
}

} // verus!
