use vstd::prelude::*;
use crate::config::{
    ContractConfig, LinkConfig, MainConfig, roster_names, roster_view, unique_names, upsert,
    upsert_contract,
};

verus! {

#[derive(Debug)]
pub struct FileCreation {
    pub comment: String,
    pub name: String,
    pub content: String,
    pub path: String,
}

#[derive(Debug)]
pub struct DirectoryCreation {
    pub comment: String,
    pub name: String,
    pub path: String,
}

/// Links and contracts to add to the project file at `path`.
#[derive(Debug)]
pub struct TOMLEdition {
    pub comment: String,
    pub path: String,
    pub contracts_to_add: Vec<(String, ContractConfig)>,
    pub links_to_add: Vec<LinkConfig>,
}

#[derive(Debug)]
pub enum Changes {
    AddFile(FileCreation),
    AddDirectory(DirectoryCreation),
    EditTOML(TOMLEdition),
}

/// `ls` followed by the entries of `add` that it does not hold yet, each once.
pub open spec fn append_new(ls: Seq<Seq<char>>, add: Seq<Seq<char>>) -> Seq<Seq<char>>
    decreases add.len(),
{
    if add.len() == 0 {
        ls
    } else {
        let prev = append_new(ls, add.drop_last());
        if prev.contains(add.last()) {
            prev
        } else {
            prev.push(add.last())
        }
    }
}

/// `r` with each contract of `add` set in turn.
pub open spec fn upsert_all(
    r: Seq<(Seq<char>, (Seq<char>, Seq<Seq<char>>))>,
    add: Seq<(Seq<char>, (Seq<char>, Seq<Seq<char>>))>,
) -> Seq<(Seq<char>, (Seq<char>, Seq<Seq<char>>))>
    decreases add.len(),
{
    if add.len() == 0 {
        r
    } else {
        upsert(upsert_all(r, add.drop_last()), add.last().0, add.last().1)
    }
}

/// The contract ids of a list of links.
pub open spec fn link_ids(ls: Seq<LinkConfig>) -> Seq<Seq<char>> {
    ls.map_values(|l: LinkConfig| l.contract_id@)
}

/// Position of the link to `id`, if any.
fn find_link(links: &Vec<LinkConfig>, id: &String) -> (r: bool)
    ensures
        r == link_ids(links@).contains(id@),
{
    let mut i: usize = 0;
    while i < links.len()
        invariant
            i <= links@.len(),
            forall|j: int| 0 <= j < i ==> links@[j].contract_id@ != id@,
        decreases links.len() - i,
    {
        if links[i].contract_id == *id {
            assert(link_ids(links@)[i as int] == id@);
            return true;
        }
        i = i + 1;
    }
    proof {
        if link_ids(links@).contains(id@) {
            let j = choose|j: int| 0 <= j < link_ids(links@).len() && link_ids(links@)[j] == id@;
            assert(links@[j].contract_id@ == id@);
        }
    }
    false
}

/// Adds the edition's links that the project does not have yet, and sets each of its
/// contracts. Returns whether anything was added: a new link or a new contract name.
pub fn apply_toml_edition(config: &mut MainConfig, edition: &TOMLEdition) -> (dirty: bool)
    requires
        old(config).wf(),
        unique_names(roster_names(edition.contracts_to_add@)),
    ensures
        final(config).wf(),
        final(config).project == old(config).project,
        ({
            let old_links = match old(config).links {
                Some(l) => link_ids(l@),
                None => Seq::empty(),
            };
            let old_roster = match old(config).contracts {
                Some(c) => roster_view(c@),
                None => Seq::empty(),
            };
            let new_links = append_new(old_links, link_ids(edition.links_to_add@));
            let new_roster = upsert_all(old_roster, roster_view(edition.contracts_to_add@));
            &&& final(config).links matches Some(l) && link_ids(l@) == new_links
            &&& final(config).contracts matches Some(c) && roster_view(c@) == new_roster
            &&& dirty == (new_links.len() > old_links.len() || new_roster.len() > old_roster.len())
        }),
{
    let mut dirty = false;
    let mut links = match config.links.take() {
        Some(links) => links,
        None => Vec::new(),
    };
    let ghost old_links = link_ids(links@);
    let add = &edition.links_to_add;
    let mut i: usize = 0;
    assert(link_ids(add@).subrange(0, 0) =~= Seq::<Seq<char>>::empty());
    while i < add.len()
        invariant
            i <= add@.len(),
            link_ids(links@) == append_new(old_links, link_ids(add@).subrange(0, i as int)),
            link_ids(links@).len() >= old_links.len(),
            dirty == (link_ids(links@).len() > old_links.len()),
        decreases add.len() - i,
    {
        let ghost next = link_ids(add@).subrange(0, i + 1);
        assert(next.drop_last() =~= link_ids(add@).subrange(0, i as int));
        assert(next.last() == add@[i as int].contract_id@);
        if !find_link(&links, &add[i].contract_id) {
            links.push(LinkConfig { contract_id: add[i].contract_id.clone() });
            assert(link_ids(links@) =~= append_new(old_links, next));
            dirty = true;
        }
        i = i + 1;
    }
    assert(link_ids(add@).subrange(0, add@.len() as int) =~= link_ids(add@));
    assert(old_links == match old(config).links {
        Some(l) => link_ids(l@),
        None => Seq::empty(),
    });
    config.links = Some(links);

    let mut contracts = match config.contracts.take() {
        Some(contracts) => contracts,
        None => Vec::new(),
    };
    assert(unique_names(roster_names(contracts@)));
    let ghost old_roster = roster_view(contracts@);
    assert(old_roster == match old(config).contracts {
        Some(c) => roster_view(c@),
        None => Seq::empty(),
    });
    let to_add = &edition.contracts_to_add;
    let mut grew = false;
    let mut k: usize = 0;
    assert(roster_view(to_add@).subrange(0, 0) =~= Seq::<(Seq<char>, (Seq<char>, Seq<Seq<char>>))>::empty());
    while k < to_add.len()
        invariant
            k <= to_add@.len(),
            unique_names(roster_names(contracts@)),
            roster_view(contracts@) == upsert_all(old_roster, roster_view(to_add@).subrange(0, k as int)),
            roster_view(contracts@).len() >= old_roster.len(),
            grew == (roster_view(contracts@).len() > old_roster.len()),
        decreases to_add.len() - k,
    {
        let ghost next = roster_view(to_add@).subrange(0, k + 1);
        assert(next.drop_last() =~= roster_view(to_add@).subrange(0, k as int));
        assert(next.last() == (to_add@[k as int].0@, to_add@[k as int].1@));
        let added = upsert_contract(&mut contracts, to_add[k].0.clone(), to_add[k].1.duplicate());
        if added {
            grew = true;
        }
        k = k + 1;
    }
    assert(roster_view(to_add@).subrange(0, to_add@.len() as int) =~= roster_view(to_add@));
    config.contracts = Some(contracts);
    dirty || grew
}

} // verus!
