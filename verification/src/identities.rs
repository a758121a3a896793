//! Client identities: the labels that clients carry, by address or by network.
use vstd::prelude::*;
use vstd::string::*;
use vstd::utf8::is_ascii_chars;

use crate::config::{identity_views, ClientIdentityConfig, IdentityView};
use crate::items::copy_items;
use crate::lists::has_address;
use crate::net::{in_network, network, IpAddr, IpNetwork};
use crate::policy::{contains_address, in_some_network, ErrorView, PolicyError, MAX_CLIENT_CIDRS,
    MAX_CLIENT_IDENTITY_BYTES};
use crate::text::{byte_len, decimal, ending_in_number, joined, same_str, str_len, texts, to_chars};
use crate::text_set::TextSet;

verus! {

pub const MAX_CLIENT_IDENTITIES: usize = 1_024;

/// How many addresses and networks one identity may have.
pub const MAX_IDENTITY_SCOPES: usize = 256;

pub open spec fn identity_error(name: Seq<char>, reason: Seq<char>) -> ErrorView {
    ErrorView::InvalidClientIdentityMap { name, reason }
}

fn refuse(name: &str, reason: String) -> (r: PolicyError)
    ensures
        r@ == identity_error(name@, reason@),
{
    PolicyError::InvalidClientIdentityMap { name: name.to_owned(), reason }
}

/// An address and the identity that it belongs to.
pub struct Assignment {
    pub client: IpAddr,
    pub name: String,
}

pub struct AssignmentView {
    pub client: IpAddr,
    pub name: Seq<char>,
}

impl View for Assignment {
    type V = AssignmentView;

    open spec fn view(&self) -> AssignmentView {
        AssignmentView { client: self.client, name: self.name@ }
    }
}

pub open spec fn assignment_views(list: Seq<Assignment>) -> Seq<AssignmentView> {
    Seq::new(list.len(), |i: int| list[i]@)
}

/// The position of the first assignment of the address.
pub open spec fn find_assignment(assigned: Seq<AssignmentView>, client: IpAddr) -> Option<int>
    decreases assigned.len(),
{
    if assigned.len() == 0 {
        None
    } else {
        match find_assignment(assigned.drop_last(), client) {
            Some(i) => Some(i),
            None => if assigned.last().client == client {
                Some(assigned.len() - 1)
            } else {
                None
            },
        }
    }
}

proof fn find_assignment_stays(assigned: Seq<AssignmentView>, client: IpAddr, i: int)
    requires
        0 <= i < assigned.len(),
        find_assignment(assigned.take(i + 1), client) == Some(i),
    ensures
        find_assignment(assigned, client) == Some(i),
    decreases assigned.len(),
{
    if assigned.len() == i + 1 {
        assert(assigned.take(i + 1) =~= assigned);
    } else {
        assert(assigned.drop_last().take(i + 1) =~= assigned.take(i + 1));
        find_assignment_stays(assigned.drop_last(), client, i);
    }
}

fn position_of(assigned: &[Assignment], client: IpAddr) -> (r: Option<usize>)
    ensures
        match find_assignment(assignment_views(assigned@), client) {
            Some(i) => r is Some && r->0 == i && 0 <= i < assigned@.len(),
            None => r is None,
        },
{
    let ghost all = assignment_views(assigned@);
    let mut i: usize = 0;
    while i < assigned.len()
        invariant
            i <= assigned.len(),
            all == assignment_views(assigned@),
            find_assignment(all.take(i as int), client) is None,
        decreases assigned.len() - i,
    {
        let ghost next = all.take(i as int + 1);
        assert(next.drop_last() =~= all.take(i as int));
        assert(next.last() == assigned[i as int]@);
        if assigned[i].client == client {
            proof {
                find_assignment_stays(all, client, i as int);
            }
            return Some(i);
        }
        i = i + 1;
    }
    assert(all.take(i as int) =~= all);
    None
}

/// The assignments after the clients of an identity were added: no client may be assigned
/// already, nor lie in a network of an identity before it.
pub open spec fn with_clients(
    networks: Seq<IpNetwork>,
    assigned: Seq<AssignmentView>,
    name: Seq<char>,
    clients: Seq<IpAddr>,
) -> Result<Seq<AssignmentView>, ErrorView>
    decreases clients.len(),
{
    if clients.len() == 0 {
        Ok(assigned)
    } else {
        match with_clients(networks, assigned, name, clients.drop_last()) {
            Err(error) => Err(error),
            Ok(list) => match find_assignment(list, clients.last()) {
                Some(i) => Err(
                    identity_error(name, "client already belongs to identity "@ + list[i].name),
                ),
                None => if in_some_network(networks, clients.last()) {
                    Err(
                        identity_error(
                            name,
                            "client CIDR overlaps an address assigned to another identity"@,
                        ),
                    )
                } else {
                    Ok(list.push(AssignmentView { client: clients.last(), name }))
                },
            },
        }
    }
}

proof fn with_clients_error_stays(
    networks: Seq<IpNetwork>,
    assigned: Seq<AssignmentView>,
    name: Seq<char>,
    clients: Seq<IpAddr>,
    n: int,
)
    requires
        0 <= n <= clients.len(),
        with_clients(networks, assigned, name, clients.take(n)) is Err,
    ensures
        with_clients(networks, assigned, name, clients) == with_clients(
            networks,
            assigned,
            name,
            clients.take(n),
        ),
    decreases clients.len(),
{
    if n == clients.len() {
        assert(clients.take(n) =~= clients);
    } else {
        assert(clients.drop_last().take(n) =~= clients.take(n));
        with_clients_error_stays(networks, assigned, name, clients.drop_last(), n);
    }
}

fn add_clients(
    networks: &[IpNetwork],
    assigned: &mut Vec<Assignment>,
    identity: &ClientIdentityConfig,
) -> (r: Result<(), PolicyError>)
    ensures
        match with_clients(
            networks@,
            assignment_views(old(assigned)@),
            identity.name@,
            identity.clients@,
        ) {
            Ok(list) => r is Ok && assignment_views(final(assigned)@) == list,
            Err(error) => r is Err && r->Err_0@ == error,
        },
{
    let ghost start = assignment_views(assigned@);
    let ghost name = identity.name@;
    let ghost all = identity.clients@;
    let mut i: usize = 0;
    while i < identity.clients.len()
        invariant
            i <= identity.clients.len(),
            start == assignment_views(old(assigned)@),
            name == identity.name@,
            all == identity.clients@,
            with_clients(networks@, start, name, all.take(i as int)) == Ok::<Seq<AssignmentView>, ErrorView>(
                assignment_views(assigned@),
            ),
        decreases identity.clients.len() - i,
    {
        let client = identity.clients[i];
        let ghost next = all.take(i as int + 1);
        assert(next.drop_last() =~= all.take(i as int));
        assert(next.last() == client);
        match position_of(assigned, client) {
            Some(k) => {
                proof {
                    assert(assignment_views(assigned@)[k as int] == assigned@[k as int]@);
                    with_clients_error_stays(networks@, start, name, all, i as int + 1);
                }
                return Err(
                    refuse(
                        identity.name.as_str(),
                        joined("client already belongs to identity ", assigned[k].name.as_str()),
                    ),
                );
            },
            None => {},
        }
        if contains_address(networks, client) {
            proof {
                with_clients_error_stays(networks@, start, name, all, i as int + 1);
            }
            return Err(
                refuse(
                    identity.name.as_str(),
                    "client CIDR overlaps an address assigned to another identity".to_owned(),
                ),
            );
        }
        let ghost before = assignment_views(assigned@);
        let entry = Assignment { client, name: identity.name.clone() };
        assigned.push(entry);
        assert(assignment_views(assigned@) =~= before.push(entry@));
        i = i + 1;
    }
    assert(all.take(i as int) =~= all);
    Ok(())
}

/// Whether two networks have an address in common.
pub open spec fn overlapping(a: IpNetwork, b: IpNetwork) -> bool {
    exists|address: IpAddr| in_network(a, address) && in_network(b, address)
}

pub open spec fn overlaps_some(network: IpNetwork, networks: Seq<IpNetwork>) -> bool {
    exists|i: int| 0 <= i < networks.len() && overlapping(network, #[trigger] networks[i])
}

/// Whether a network holds a client of another identity.
pub open spec fn covers_other(
    network: IpNetwork,
    name: Seq<char>,
    assigned: Seq<AssignmentView>,
) -> bool {
    exists|i: int|
        0 <= i < assigned.len() && in_network(network, (#[trigger] assigned[i]).client)
            && assigned[i].name != name
}

/// The network that a text spells, which must share no address with a network before it nor
/// with a client of another identity.
pub open spec fn next_network(
    networks: Seq<IpNetwork>,
    assigned: Seq<AssignmentView>,
    name: Seq<char>,
    cidr: Seq<char>,
) -> Result<IpNetwork, ErrorView> {
    match network(cidr) {
        None => Err(identity_error(name, "invalid client CIDR "@ + cidr)),
        Some(value) => if overlaps_some(value, networks) {
            Err(identity_error(name, "client CIDR overlaps another identity scope"@))
        } else if covers_other(value, name, assigned) {
            Err(
                identity_error(
                    name,
                    "client CIDR overlaps an address assigned to another identity"@,
                ),
            )
        } else {
            Ok(value)
        },
    }
}

/// The networks after those of an identity were added.
pub open spec fn with_networks(
    networks: Seq<IpNetwork>,
    assigned: Seq<AssignmentView>,
    name: Seq<char>,
    cidrs: Seq<Seq<char>>,
) -> Result<Seq<IpNetwork>, ErrorView>
    decreases cidrs.len(),
{
    if cidrs.len() == 0 {
        Ok(networks)
    } else {
        match with_networks(networks, assigned, name, cidrs.drop_last()) {
            Err(error) => Err(error),
            Ok(list) => match next_network(list, assigned, name, cidrs.last()) {
                Err(error) => Err(error),
                Ok(value) => Ok(list.push(value)),
            },
        }
    }
}

proof fn with_networks_error_stays(
    networks: Seq<IpNetwork>,
    assigned: Seq<AssignmentView>,
    name: Seq<char>,
    cidrs: Seq<Seq<char>>,
    n: int,
)
    requires
        0 <= n <= cidrs.len(),
        with_networks(networks, assigned, name, cidrs.take(n)) is Err,
    ensures
        with_networks(networks, assigned, name, cidrs) == with_networks(
            networks,
            assigned,
            name,
            cidrs.take(n),
        ),
    decreases cidrs.len(),
{
    if n == cidrs.len() {
        assert(cidrs.take(n) =~= cidrs);
    } else {
        assert(cidrs.drop_last().take(n) =~= cidrs.take(n));
        with_networks_error_stays(networks, assigned, name, cidrs.drop_last(), n);
    }
}

/// All networks are in normal form.
pub open spec fn networks_wf(networks: Seq<IpNetwork>) -> bool {
    forall|i: int| 0 <= i < networks.len() ==> (#[trigger] networks[i]).wf()
}

fn overlaps_any(network: &IpNetwork, networks: &[IpNetwork]) -> (r: bool)
    requires
        network.wf(),
        networks_wf(networks@),
    ensures
        r == overlaps_some(*network, networks@),
{
    let mut i: usize = 0;
    while i < networks.len()
        invariant
            i <= networks.len(),
            network.wf(),
            networks_wf(networks@),
            forall|k: int| 0 <= k < i ==> !overlapping(*network, #[trigger] networks@[k]),
        decreases networks.len() - i,
    {
        assert(networks@[i as int].wf());
        if network.overlaps(&networks[i]) {
            assert(overlapping(*network, networks@[i as int]));
            return true;
        }
        i = i + 1;
    }
    false
}

fn covers_another(network: &IpNetwork, name: &str, assigned: &[Assignment]) -> (r: bool)
    ensures
        r == covers_other(*network, name@, assignment_views(assigned@)),
{
    let ghost all = assignment_views(assigned@);
    let mut i: usize = 0;
    while i < assigned.len()
        invariant
            i <= assigned.len(),
            all == assignment_views(assigned@),
            forall|k: int|
                0 <= k < i ==> !(in_network(*network, (#[trigger] all[k]).client) && all[k].name
                    != name@),
        decreases assigned.len() - i,
    {
        assert(all[i as int] == assigned[i as int]@);
        if network.contains(assigned[i].client) && !same_str(assigned[i].name.as_str(), name) {
            return true;
        }
        i = i + 1;
    }
    false
}

fn read_network(
    networks: &[IpNetwork],
    assigned: &[Assignment],
    name: &str,
    cidr: &str,
) -> (r: Result<IpNetwork, PolicyError>)
    requires
        networks_wf(networks@),
    ensures
        match next_network(networks@, assignment_views(assigned@), name@, cidr@) {
            Ok(value) => r is Ok && r->Ok_0 == value && value.wf(),
            Err(error) => r is Err && r->Err_0@ == error,
        },
{
    let network = match IpNetwork::parse(cidr) {
        Some(network) => network,
        None => {
            return Err(refuse(name, joined("invalid client CIDR ", cidr)));
        },
    };
    if overlaps_any(&network, networks) {
        return Err(refuse(name, "client CIDR overlaps another identity scope".to_owned()));
    }
    if covers_another(&network, name, assigned) {
        return Err(
            refuse(
                name,
                "client CIDR overlaps an address assigned to another identity".to_owned(),
            ),
        );
    }
    Ok(network)
}

fn add_networks(
    networks: &mut Vec<IpNetwork>,
    assigned: &[Assignment],
    identity: &ClientIdentityConfig,
) -> (r: Result<(), PolicyError>)
    requires
        networks_wf(old(networks)@),
    ensures
        match with_networks(
            old(networks)@,
            assignment_views(assigned@),
            identity.name@,
            texts(identity.client_cidrs@),
        ) {
            Ok(list) => r is Ok && final(networks)@ == list && networks_wf(list),
            Err(error) => r is Err && r->Err_0@ == error,
        },
{
    let ghost start = networks@;
    let ghost taken = assignment_views(assigned@);
    let ghost name = identity.name@;
    let ghost all = texts(identity.client_cidrs@);
    let mut i: usize = 0;
    while i < identity.client_cidrs.len()
        invariant
            i <= identity.client_cidrs.len(),
            start == old(networks)@,
            taken == assignment_views(assigned@),
            name == identity.name@,
            all == texts(identity.client_cidrs@),
            networks_wf(networks@),
            with_networks(start, taken, name, all.take(i as int)) == Ok::<
                Seq<IpNetwork>,
                ErrorView,
            >(networks@),
        decreases identity.client_cidrs.len() - i,
    {
        let ghost next = all.take(i as int + 1);
        assert(next.drop_last() =~= all.take(i as int));
        assert(next.last() == identity.client_cidrs[i as int]@);
        match read_network(
            networks,
            assigned,
            identity.name.as_str(),
            identity.client_cidrs[i].as_str(),
        ) {
            Ok(network) => {
                networks.push(network);
            },
            Err(error) => {
                proof {
                    with_networks_error_stays(start, taken, name, all, i as int + 1);
                }
                return Err(error);
            },
        }
        i = i + 1;
    }
    assert(all.take(i as int) =~= all);
    Ok(())
}

/// What the identities before one have taken.
pub struct Taken {
    pub names: Set<Seq<char>>,
    pub assigned: Seq<AssignmentView>,
    pub networks: Seq<IpNetwork>,
}

/// What is taken after one more identity.
pub open spec fn with_identity(taken: Taken, identity: IdentityView) -> Result<Taken, ErrorView> {
    let name = identity.name;
    let clients = identity.clients.len();
    let cidrs = identity.client_cidrs.len();
    if name.len() == 0 || byte_len(name) > MAX_CLIENT_IDENTITY_BYTES || !is_ascii_chars(name)
        || taken.names.contains(name) {
        Err(identity_error(name, "names must be unique, non-empty, and bounded ASCII"@))
    } else if (clients == 0 && cidrs == 0) || clients > MAX_IDENTITY_SCOPES || cidrs
        > MAX_CLIENT_CIDRS || clients + cidrs > MAX_IDENTITY_SCOPES {
        Err(identity_error(name, "each identity must contain bounded client addresses or CIDRs"@))
    } else {
        match with_clients(taken.networks, taken.assigned, name, identity.clients) {
            Err(error) => Err(error),
            Ok(assigned) => match with_networks(
                taken.networks,
                assigned,
                name,
                identity.client_cidrs,
            ) {
                Err(error) => Err(error),
                Ok(networks) => Ok(
                    Taken { names: taken.names.insert(name), assigned, networks },
                ),
            },
        }
    }
}

/// What the identities take, or what is wrong with them.
pub open spec fn taken_by(identities: Seq<IdentityView>) -> Result<Taken, ErrorView>
    decreases identities.len(),
{
    if identities.len() == 0 {
        Ok(Taken { names: Set::empty(), assigned: Seq::empty(), networks: Seq::empty() })
    } else {
        match taken_by(identities.drop_last()) {
            Err(error) => Err(error),
            Ok(taken) => with_identity(taken, identities.last()),
        }
    }
}

/// What is wrong with the identities.
pub open spec fn identities_fault(identities: Seq<IdentityView>) -> Option<ErrorView> {
    if identities.len() > MAX_CLIENT_IDENTITIES {
        Some(
            identity_error(
                "<config>"@,
                "identity count exceeds "@ + decimal(MAX_CLIENT_IDENTITIES as nat),
            ),
        )
    } else {
        match taken_by(identities) {
            Err(error) => Some(error),
            Ok(_) => None,
        }
    }
}

proof fn taken_by_error_stays(identities: Seq<IdentityView>, n: int)
    requires
        0 <= n <= identities.len(),
        taken_by(identities.take(n)) is Err,
    ensures
        taken_by(identities) == taken_by(identities.take(n)),
    decreases identities.len(),
{
    if n == identities.len() {
        assert(identities.take(n) =~= identities);
    } else {
        assert(identities.drop_last().take(n) =~= identities.take(n));
        taken_by_error_stays(identities.drop_last(), n);
    }
}

/// Checks the identities, and hands out a copy of them.
pub fn validate_client_identities(identities: &[ClientIdentityConfig]) -> (r: Result<
    Vec<ClientIdentityConfig>,
    PolicyError,
>)
    ensures
        match identities_fault(identity_views(identities@)) {
            Some(error) => r is Err && r->Err_0@ == error,
            None => r is Ok && identity_views(r->Ok_0@) == identity_views(identities@),
        },
{
    let ghost all = identity_views(identities@);
    if identities.len() > MAX_CLIENT_IDENTITIES {
        return Err(
            refuse(
                "<config>",
                ending_in_number("identity count exceeds ", MAX_CLIENT_IDENTITIES as u64),
            ),
        );
    }
    let mut names = TextSet::new();
    let mut assigned: Vec<Assignment> = Vec::new();
    let mut networks: Vec<IpNetwork> = Vec::new();
    let mut i: usize = 0;
    assert(assignment_views(assigned@) =~= Seq::<AssignmentView>::empty());
    while i < identities.len()
        invariant
            i <= identities.len() <= MAX_CLIENT_IDENTITIES,
            all == identity_views(identities@),
            names.wf(),
            networks_wf(networks@),
            taken_by(all.take(i as int)) == Ok::<Taken, ErrorView>(
                Taken {
                    names: names@,
                    assigned: assignment_views(assigned@),
                    networks: networks@,
                },
            ),
        decreases identities.len() - i,
    {
        let identity = &identities[i];
        let ghost next = all.take(i as int + 1);
        proof {
            assert(next.drop_last() =~= all.take(i as int));
            assert(next.last() == identity@);
            if taken_by(next) is Err {
                taken_by_error_stays(all, i as int + 1);
            }
        }
        let name = to_chars(identity.name.as_str());
        if name.len() == 0 || str_len(identity.name.as_str()) > MAX_CLIENT_IDENTITY_BYTES
            || !identity.name.as_str().is_ascii() || names.contains(&name) {
            return Err(
                refuse(
                    identity.name.as_str(),
                    "names must be unique, non-empty, and bounded ASCII".to_owned(),
                ),
            );
        }
        names.insert(&name);
        if (identity.clients.len() == 0 && identity.client_cidrs.len() == 0)
            || identity.clients.len() > MAX_IDENTITY_SCOPES || identity.client_cidrs.len()
            > MAX_CLIENT_CIDRS || identity.clients.len() + identity.client_cidrs.len()
            > MAX_IDENTITY_SCOPES {
            return Err(
                refuse(
                    identity.name.as_str(),
                    "each identity must contain bounded client addresses or CIDRs".to_owned(),
                ),
            );
        }
        match add_clients(&networks, &mut assigned, identity) {
            Ok(()) => {},
            Err(error) => {
                return Err(error);
            },
        }
        match add_networks(&mut networks, &assigned, identity) {
            Ok(()) => {},
            Err(error) => {
                return Err(error);
            },
        }
        i = i + 1;
    }
    assert(all.take(i as int) =~= all);
    Ok(copy_items(identities))
}

// ---- which identity a client carries -------------------------------------------------

/// The first enabled identity that lists the client, where there is one.
pub open spec fn listed_identity(identities: Seq<IdentityView>, client: IpAddr) -> Option<int>
    decreases identities.len(),
{
    if identities.len() == 0 {
        None
    } else {
        match listed_identity(identities.drop_last(), client) {
            Some(i) => Some(i),
            None => if identities.last().enabled && identities.last().clients.contains(client) {
                Some(identities.len() - 1)
            } else {
                None
            },
        }
    }
}

/// The longest prefix of the readable networks that hold the client; -1 where none does.
pub open spec fn covering_prefix(cidrs: Seq<Seq<char>>, client: IpAddr) -> int
    decreases cidrs.len(),
{
    if cidrs.len() == 0 {
        -1
    } else {
        let before = covering_prefix(cidrs.drop_last(), client);
        match network(cidrs.last()) {
            Some(value) => if in_network(value, client) && value.prefix > before {
                value.prefix as int
            } else {
                before
            },
            None => before,
        }
    }
}

/// The enabled identity with the narrowest network that holds the client, the last of them
/// where several are equally narrow; its position and the prefix.
pub open spec fn covering_identity(identities: Seq<IdentityView>, client: IpAddr) -> Option<
    (int, int),
>
    decreases identities.len(),
{
    if identities.len() == 0 {
        None
    } else {
        let before = covering_identity(identities.drop_last(), client);
        let prefix = covering_prefix(identities.last().client_cidrs, client);
        if !identities.last().enabled || prefix < 0 {
            before
        } else {
            match before {
                Some((_, longest)) => if prefix >= longest {
                    Some((identities.len() - 1, prefix))
                } else {
                    before
                },
                None => Some((identities.len() - 1, prefix)),
            }
        }
    }
}

/// The identity of a client: one that lists it comes before one with a network that holds it.
pub open spec fn identity_of(identities: Seq<IdentityView>, client: IpAddr) -> Option<int> {
    match listed_identity(identities, client) {
        Some(i) => Some(i),
        None => match covering_identity(identities, client) {
            Some((i, _)) => Some(i),
            None => None,
        },
    }
}

/// The label of a client.
pub open spec fn label_of(identities: Seq<IdentityView>, client: Option<IpAddr>) -> Option<
    Seq<char>,
> {
    match client {
        None => None,
        Some(address) => match identity_of(identities, address) {
            Some(i) => Some(identities[i].name),
            None => None,
        },
    }
}

proof fn listed_identity_stays(identities: Seq<IdentityView>, client: IpAddr, i: int)
    requires
        0 <= i < identities.len(),
        listed_identity(identities.take(i + 1), client) == Some(i),
    ensures
        listed_identity(identities, client) == Some(i),
    decreases identities.len(),
{
    if identities.len() == i + 1 {
        assert(identities.take(i + 1) =~= identities);
    } else {
        assert(identities.drop_last().take(i + 1) =~= identities.take(i + 1));
        listed_identity_stays(identities.drop_last(), client, i);
    }
}

/// The longest covering prefix of one identity.
fn longest_cover(cidrs: &[String], client: IpAddr) -> (r: Option<u8>)
    ensures
        match r {
            Some(prefix) => covering_prefix(texts(cidrs@), client) == prefix,
            None => covering_prefix(texts(cidrs@), client) == -1,
        },
{
    let ghost all = texts(cidrs@);
    let mut best: Option<u8> = None;
    let mut i: usize = 0;
    while i < cidrs.len()
        invariant
            i <= cidrs.len(),
            all == texts(cidrs@),
            match best {
                Some(prefix) => covering_prefix(all.take(i as int), client) == prefix,
                None => covering_prefix(all.take(i as int), client) == -1,
            },
        decreases cidrs.len() - i,
    {
        let ghost next = all.take(i as int + 1);
        assert(next.drop_last() =~= all.take(i as int));
        assert(next.last() == cidrs[i as int]@);
        match IpNetwork::parse(cidrs[i].as_str()) {
            Some(network) => {
                if network.contains(client) {
                    let longer = match best {
                        Some(prefix) => network.prefix > prefix,
                        None => true,
                    };
                    if longer {
                        best = Some(network.prefix);
                    }
                }
            },
            None => {},
        }
        i = i + 1;
    }
    assert(all.take(i as int) =~= all);
    best
}

/// The position of the identity of a client.
pub fn client_identity_index(identities: &[ClientIdentityConfig], client: IpAddr) -> (r: Option<
    usize,
>)
    ensures
        match identity_of(identity_views(identities@), client) {
            Some(i) => r is Some && r->0 == i && 0 <= i < identities@.len(),
            None => r is None,
        },
{
    let ghost all = identity_views(identities@);
    let mut i: usize = 0;
    while i < identities.len()
        invariant
            i <= identities.len(),
            all == identity_views(identities@),
            listed_identity(all.take(i as int), client) is None,
        decreases identities.len() - i,
    {
        let ghost next = all.take(i as int + 1);
        assert(next.drop_last() =~= all.take(i as int));
        assert(next.last() == identities[i as int]@);
        if identities[i].enabled && has_address(&identities[i].clients, client) {
            proof {
                listed_identity_stays(all, client, i as int);
            }
            return Some(i);
        }
        i = i + 1;
    }
    assert(all.take(i as int) =~= all);
    let mut best: Option<(usize, u8)> = None;
    let mut k: usize = 0;
    while k < identities.len()
        invariant
            k <= identities.len(),
            all == identity_views(identities@),
            match best {
                Some((at, prefix)) => covering_identity(all.take(k as int), client) == Some(
                    (at as int, prefix as int),
                ) && at < k,
                None => covering_identity(all.take(k as int), client) is None,
            },
        decreases identities.len() - k,
    {
        let ghost next = all.take(k as int + 1);
        assert(next.drop_last() =~= all.take(k as int));
        assert(next.last() == identities[k as int]@);
        if identities[k].enabled {
            match longest_cover(&identities[k].client_cidrs, client) {
                Some(prefix) => {
                    let longer = match best {
                        Some((_, longest)) => prefix >= longest,
                        None => true,
                    };
                    if longer {
                        best = Some((k, prefix));
                    }
                },
                None => {},
            }
        }
        k = k + 1;
    }
    assert(all.take(k as int) =~= all);
    match best {
        Some((at, _)) => Some(at),
        None => None,
    }
}

/// The label of a client, where it has one.
pub fn client_identity_for(identities: &[ClientIdentityConfig], client: Option<IpAddr>) -> (r:
    Option<String>)
    ensures
        match label_of(identity_views(identities@), client) {
            Some(label) => r is Some && r->0@ == label,
            None => r is None,
        },
{
    match client {
        None => None,
        Some(address) => match client_identity_index(identities, address) {
            Some(i) => {
                assert(identity_views(identities@)[i as int] == identities[i as int]@);
                Some(identities[i].name.clone())
            },
            None => None,
        },
    }
}

// ---- laws ----------------------------------------------------------------------------

/// What stays true of the identities that have been accepted: no address is assigned twice and
/// no two networks share an address.
pub open spec fn exclusive(taken: Taken) -> bool {
    &&& forall|i: int, k: int|
        0 <= i < k < taken.assigned.len() ==> (#[trigger] taken.assigned[i]).client != (
        #[trigger] taken.assigned[k]).client
    &&& forall|i: int, k: int|
        0 <= i < k < taken.networks.len() ==> !overlapping(
            #[trigger] taken.networks[k],
            #[trigger] taken.networks[i],
        )
}

proof fn not_found_is_absent(assigned: Seq<AssignmentView>, client: IpAddr)
    requires
        find_assignment(assigned, client) is None,
    ensures
        forall|i: int| 0 <= i < assigned.len() ==> (#[trigger] assigned[i]).client != client,
    decreases assigned.len(),
{
    if assigned.len() > 0 {
        not_found_is_absent(assigned.drop_last(), client);
        assert forall|i: int| 0 <= i < assigned.len() implies (#[trigger] assigned[i]).client
            != client by {
            if i < assigned.len() - 1 {
                assert(assigned.drop_last()[i] == assigned[i]);
            }
        }
    }
}

proof fn clients_stay_exclusive(taken: Taken, name: Seq<char>, clients: Seq<IpAddr>)
    requires
        exclusive(taken),
        with_clients(taken.networks, taken.assigned, name, clients) is Ok,
    ensures
        exclusive(Taken { assigned: with_clients(taken.networks, taken.assigned, name, clients)->Ok_0, ..taken }),
    decreases clients.len(),
{
    if clients.len() > 0 {
        clients_stay_exclusive(taken, name, clients.drop_last());
        let list = with_clients(taken.networks, taken.assigned, name, clients.drop_last())->Ok_0;
        not_found_is_absent(list, clients.last());
        let before = Taken { assigned: list, ..taken };
        assert(exclusive(before));
        assert(forall|i: int, k: int|
            0 <= i < k < list.len() ==> (#[trigger] before.assigned[i]).client != (
            #[trigger] before.assigned[k]).client);
    }
}

proof fn networks_stay_exclusive(taken: Taken, name: Seq<char>, cidrs: Seq<Seq<char>>)
    requires
        exclusive(taken),
        with_networks(taken.networks, taken.assigned, name, cidrs) is Ok,
    ensures
        exclusive(
            Taken {
                networks: with_networks(taken.networks, taken.assigned, name, cidrs)->Ok_0,
                ..taken
            },
        ),
    decreases cidrs.len(),
{
    if cidrs.len() > 0 {
        networks_stay_exclusive(taken, name, cidrs.drop_last());
        let list = with_networks(taken.networks, taken.assigned, name, cidrs.drop_last())->Ok_0;
        let before = Taken { networks: list, ..taken };
        let all = with_networks(taken.networks, taken.assigned, name, cidrs)->Ok_0;
        let after = Taken { networks: all, ..taken };
        assert(exclusive(before));
        assert forall|i: int, k: int| 0 <= i < k < after.networks.len() implies !overlapping(
            #[trigger] after.networks[k],
            #[trigger] after.networks[i],
        ) by {
            assert(all[i] == list[i]);
            if k < list.len() {
                assert(!overlapping(before.networks[k], before.networks[i]));
            } else {
                assert(!overlaps_some(all[k], list));
            }
        }
        assert forall|i: int, k: int| 0 <= i < k < after.assigned.len() implies (
        #[trigger] after.assigned[i]).client != (#[trigger] after.assigned[k]).client by {
            assert(taken.assigned[i].client != taken.assigned[k].client);
        }
    }
}

/// Accepted identities are exclusive: no address is listed twice, and no two networks share an
/// address, within an identity or between identities.
pub proof fn accepted_identities_are_exclusive(identities: Seq<IdentityView>)
    requires
        taken_by(identities) is Ok,
    ensures
        exclusive(taken_by(identities)->Ok_0),
    decreases identities.len(),
{
    if identities.len() > 0 {
        accepted_identities_are_exclusive(identities.drop_last());
        let taken = taken_by(identities.drop_last())->Ok_0;
        let identity = identities.last();
        clients_stay_exclusive(taken, identity.name, identity.clients);
        let assigned = with_clients(taken.networks, taken.assigned, identity.name, identity.clients)->Ok_0;
        let middle = Taken { assigned, ..taken };
        networks_stay_exclusive(middle, identity.name, identity.client_cidrs);
        let networks = with_networks(
            taken.networks,
            assigned,
            identity.name,
            identity.client_cidrs,
        )->Ok_0;
        let end = Taken { networks, ..middle };
        assert(exclusive(end));
        let last = taken_by(identities)->Ok_0;
        assert(last.assigned == end.assigned && last.networks == end.networks);
        assert forall|i: int, k: int| 0 <= i < k < last.assigned.len() implies (
        #[trigger] last.assigned[i]).client != (#[trigger] last.assigned[k]).client by {
            assert(end.assigned[i].client != end.assigned[k].client);
        }
        assert forall|i: int, k: int| 0 <= i < k < last.networks.len() implies !overlapping(
            #[trigger] last.networks[k],
            #[trigger] last.networks[i],
        ) by {
            assert(!overlapping(end.networks[k], end.networks[i]));
        }
    }
}

/// A disabled identity labels no client.
pub proof fn disabled_identities_label_nobody(identities: Seq<IdentityView>, client: IpAddr)
    ensures
        match identity_of(identities, client) {
            Some(i) => 0 <= i < identities.len() && identities[i].enabled,
            None => true,
        },
{
    listed_is_enabled(identities, client);
    covering_is_enabled(identities, client);
}

proof fn listed_is_enabled(identities: Seq<IdentityView>, client: IpAddr)
    ensures
        match listed_identity(identities, client) {
            Some(i) => 0 <= i < identities.len() && identities[i].enabled
                && identities[i].clients.contains(client),
            None => true,
        },
    decreases identities.len(),
{
    if identities.len() > 0 {
        listed_is_enabled(identities.drop_last(), client);
    }
}

proof fn covering_is_enabled(identities: Seq<IdentityView>, client: IpAddr)
    ensures
        match covering_identity(identities, client) {
            Some((i, _)) => 0 <= i < identities.len() && identities[i].enabled,
            None => true,
        },
    decreases identities.len(),
{
    if identities.len() > 0 {
        covering_is_enabled(identities.drop_last(), client);
    }
}

proof fn clients_are_apart(
    networks: Seq<IpNetwork>,
    assigned: Seq<AssignmentView>,
    name: Seq<char>,
    clients: Seq<IpAddr>,
)
    requires
        with_clients(networks, assigned, name, clients) is Ok,
    ensures
        ({
            let list = with_clients(networks, assigned, name, clients)->Ok_0;
            &&& list.len() == assigned.len() + clients.len()
            &&& forall|i: int| 0 <= i < assigned.len() ==> #[trigger] list[i] == assigned[i]
            &&& forall|i: int|
                0 <= i < clients.len() ==> list[assigned.len() + i] == (AssignmentView {
                    client: #[trigger] clients[i],
                    name,
                })
            &&& forall|i: int|
                0 <= i < clients.len() ==> !in_some_network(networks, #[trigger] clients[i])
        }),
    decreases clients.len(),
{
    if clients.len() > 0 {
        let front = clients.drop_last();
        clients_are_apart(networks, assigned, name, front);
        assert forall|i: int| 0 <= i < clients.len() implies !in_some_network(
            networks,
            #[trigger] clients[i],
        ) && with_clients(networks, assigned, name, clients)->Ok_0[assigned.len() + i] == (
        AssignmentView { client: clients[i], name }) by {
            if i < front.len() {
                assert(front[i] == clients[i]);
            }
        }
    }
}

proof fn networks_are_apart(
    networks: Seq<IpNetwork>,
    assigned: Seq<AssignmentView>,
    name: Seq<char>,
    cidrs: Seq<Seq<char>>,
)
    requires
        with_networks(networks, assigned, name, cidrs) is Ok,
    ensures
        ({
            let list = with_networks(networks, assigned, name, cidrs)->Ok_0;
            &&& list.len() == networks.len() + cidrs.len()
            &&& forall|i: int| 0 <= i < networks.len() ==> #[trigger] list[i] == networks[i]
            &&& forall|i: int|
                0 <= i < cidrs.len() ==> network(#[trigger] cidrs[i]) == Some(
                    list[networks.len() + i],
                ) && !covers_other(list[networks.len() + i], name, assigned)
        }),
    decreases cidrs.len(),
{
    if cidrs.len() > 0 {
        let front = cidrs.drop_last();
        networks_are_apart(networks, assigned, name, front);
        let list = with_networks(networks, assigned, name, cidrs)->Ok_0;
        assert forall|i: int| 0 <= i < cidrs.len() implies network(#[trigger] cidrs[i]) == Some(
            list[networks.len() + i],
        ) && !covers_other(list[networks.len() + i], name, assigned) by {
            if i < front.len() {
                assert(front[i] == cidrs[i]);
            }
        }
    }
}

// What one more identity takes comes behind what was taken.
proof fn takings_grow(identities: Seq<IdentityView>)
    requires
        identities.len() > 0,
        taken_by(identities) is Ok,
    ensures
        ({
            let before = taken_by(identities.drop_last())->Ok_0;
            let taken = taken_by(identities)->Ok_0;
            let last = identities.last();
            &&& taken_by(identities.drop_last()) is Ok
            &&& taken.names == before.names.insert(last.name)
            &&& !before.names.contains(last.name)
            &&& with_clients(before.networks, before.assigned, last.name, last.clients) == Ok::<
                Seq<AssignmentView>,
                ErrorView,
            >(taken.assigned)
            &&& with_networks(before.networks, taken.assigned, last.name, last.client_cidrs) == Ok::<
                Seq<IpNetwork>,
                ErrorView,
            >(taken.networks)
        }),
{
}

// The name and the clients of an accepted identity are taken.
proof fn clients_are_taken(identities: Seq<IdentityView>, j: int, i: int)
    requires
        taken_by(identities) is Ok,
        0 <= j < identities.len(),
        0 <= i < identities[j].clients.len(),
    ensures
        taken_by(identities)->Ok_0.names.contains(identities[j].name),
        taken_by(identities)->Ok_0.assigned.contains(
            AssignmentView { client: identities[j].clients[i], name: identities[j].name },
        ),
    decreases identities.len(),
{
    let front = identities.drop_last();
    takings_grow(identities);
    let before = taken_by(front)->Ok_0;
    let taken = taken_by(identities)->Ok_0;
    let last = identities.last();
    clients_are_apart(before.networks, before.assigned, last.name, last.clients);
    let entry = AssignmentView { client: identities[j].clients[i], name: identities[j].name };
    if j < front.len() {
        assert(front[j] == identities[j]);
        clients_are_taken(front, j, i);
        let at = choose|at: int| 0 <= at < before.assigned.len() && before.assigned[at] == entry;
        assert(taken.assigned[at] == entry);
    } else {
        assert(taken.assigned[before.assigned.len() + i] == entry) by {
            assert(last.clients[i] == entry.client);
        }
    }
}

// The networks of an accepted identity are taken.
proof fn networks_are_taken(identities: Seq<IdentityView>, j: int, n: int)
    requires
        taken_by(identities) is Ok,
        0 <= j < identities.len(),
        0 <= n < identities[j].client_cidrs.len(),
    ensures
        network(identities[j].client_cidrs[n]) is Some,
        taken_by(identities)->Ok_0.networks.contains(network(identities[j].client_cidrs[n])->0),
    decreases identities.len(),
{
    let front = identities.drop_last();
    takings_grow(identities);
    let before = taken_by(front)->Ok_0;
    let taken = taken_by(identities)->Ok_0;
    let last = identities.last();
    networks_are_apart(before.networks, taken.assigned, last.name, last.client_cidrs);
    let cidr = identities[j].client_cidrs[n];
    if j < front.len() {
        assert(front[j] == identities[j]);
        networks_are_taken(front, j, n);
        let at = choose|at: int|
            0 <= at < before.networks.len() && before.networks[at] == network(cidr)->0;
        assert(taken.networks[at] == network(cidr)->0);
    } else {
        assert(last.client_cidrs[n] == cidr);
        assert(taken.networks[before.networks.len() + n] == network(cidr)->0);
    }
}

// A client of the last identity lies in no network of one before it.
proof fn last_clients_are_apart(identities: Seq<IdentityView>, i: int, b: int, n: int)
    requires
        identities.len() > 0,
        taken_by(identities) is Ok,
        0 <= b < identities.len() - 1,
        0 <= i < identities.last().clients.len(),
        0 <= n < identities[b].client_cidrs.len(),
    ensures
        ({
            let scope = network(identities[b].client_cidrs[n]);
            scope is Some && !in_network(scope->0, identities.last().clients[i])
        }),
{
    let front = identities.drop_last();
    let last = identities.last();
    takings_grow(identities);
    let before = taken_by(front)->Ok_0;
    assert(front[b] == identities[b]);
    networks_are_taken(front, b, n);
    let scope = network(front[b].client_cidrs[n])->0;
    clients_are_apart(before.networks, before.assigned, last.name, last.clients);
    assert(!in_some_network(before.networks, last.clients[i]));
    let at = choose|at: int| 0 <= at < before.networks.len() && before.networks[at] == scope;
    assert(!in_network(before.networks[at], last.clients[i]));
}

// A network of the last identity holds no client of one before it.
proof fn last_networks_are_apart(identities: Seq<IdentityView>, a: int, i: int, n: int)
    requires
        identities.len() > 0,
        taken_by(identities) is Ok,
        0 <= a < identities.len() - 1,
        0 <= i < identities[a].clients.len(),
        0 <= n < identities.last().client_cidrs.len(),
    ensures
        ({
            let scope = network(identities.last().client_cidrs[n]);
            scope is Some && !in_network(scope->0, identities[a].clients[i])
        }),
{
    let front = identities.drop_last();
    let last = identities.last();
    takings_grow(identities);
    let before = taken_by(front)->Ok_0;
    assert(front[a] == identities[a]);
    clients_are_taken(front, a, i);
    let client = front[a].clients[i];
    let entry = AssignmentView { client, name: front[a].name };
    assert(before.assigned.contains(entry));
    let at = choose|at: int| 0 <= at < before.assigned.len() && before.assigned[at] == entry;
    let assigned = taken_by(identities)->Ok_0.assigned;
    clients_are_apart(before.networks, before.assigned, last.name, last.clients);
    assert(assigned[at] == entry);
    assert(before.names.contains(entry.name));
    networks_are_apart(before.networks, assigned, last.name, last.client_cidrs);
    assert(network(last.client_cidrs[n]) is Some);
    let scope = network(last.client_cidrs[n])->0;
    assert(!covers_other(scope, last.name, assigned));
    assert(!in_network(scope, assigned[at].client));
}

/// No address of an accepted identity lies in a network of another one, whichever of them comes
/// first.
pub proof fn accepted_scopes_are_apart(
    identities: Seq<IdentityView>,
    a: int,
    i: int,
    b: int,
    n: int,
)
    requires
        taken_by(identities) is Ok,
        0 <= a < identities.len(),
        0 <= b < identities.len(),
        a != b,
        0 <= i < identities[a].clients.len(),
        0 <= n < identities[b].client_cidrs.len(),
    ensures
        ({
            let scope = network(identities[b].client_cidrs[n]);
            scope is Some && !in_network(scope->0, identities[a].clients[i])
        }),
    decreases identities.len(),
{
    let front = identities.drop_last();
    if a == front.len() {
        last_clients_are_apart(identities, i, b, n);
    } else if b == front.len() {
        last_networks_are_apart(identities, a, i, n);
    } else {
        assert(front[a] == identities[a] && front[b] == identities[b]);
        takings_grow(identities);
        accepted_scopes_are_apart(front, a, i, b, n);
    }
}

proof fn listed_is_exact(identities: Seq<IdentityView>, client: IpAddr)
    ensures
        match listed_identity(identities, client) {
            Some(i) => 0 <= i < identities.len() && identities[i].enabled
                && identities[i].clients.contains(client) && forall|k: int|
                0 <= k < i && (#[trigger] identities[k]).enabled
                    ==> !identities[k].clients.contains(client),
            None => forall|k: int|
                0 <= k < identities.len() && (#[trigger] identities[k]).enabled
                    ==> !identities[k].clients.contains(client),
        },
    decreases identities.len(),
{
    if identities.len() > 0 {
        let front = identities.drop_last();
        listed_is_exact(front, client);
        assert forall|k: int| 0 <= k < front.len() implies front[k] == #[trigger] identities[k] by {}
    }
}

/// Whether one of the networks holds the client with a prefix of that length.
pub open spec fn held_with(cidrs: Seq<Seq<char>>, client: IpAddr, prefix: int) -> bool {
    exists|k: int|
        0 <= k < cidrs.len() && (network(#[trigger] cidrs[k]) matches Some(value) && in_network(
            value,
            client,
        ) && value.prefix == prefix)
}

#[verifier::spinoff_prover]
proof fn covering_prefix_is_longest(cidrs: Seq<Seq<char>>, client: IpAddr)
    ensures
        covering_prefix(cidrs, client) >= -1,
        covering_prefix(cidrs, client) >= 0 ==> held_with(
            cidrs,
            client,
            covering_prefix(cidrs, client),
        ),
        forall|prefix: int| #[trigger]
            held_with(cidrs, client, prefix) ==> prefix <= covering_prefix(cidrs, client),
    decreases cidrs.len(),
{
    if cidrs.len() > 0 {
        let front = cidrs.drop_last();
        let last = cidrs.len() - 1;
        covering_prefix_is_longest(front, client);
        let before = covering_prefix(front, client);
        let all = covering_prefix(cidrs, client);
        if all >= 0 {
            if all == before {
                let k = choose|k: int|
                    0 <= k < front.len() && (network(#[trigger] front[k]) matches Some(value)
                        && in_network(value, client) && value.prefix == before);
                assert(network(cidrs[k]) is Some);
            } else {
                assert(network(cidrs[last]) is Some);
            }
        }
        assert forall|prefix: int| #[trigger] held_with(cidrs, client, prefix) implies prefix
            <= all by {
            let k = choose|k: int|
                0 <= k < cidrs.len() && (network(#[trigger] cidrs[k]) matches Some(value)
                    && in_network(value, client) && value.prefix == prefix);
            if k < last {
                assert(network(front[k]) is Some);
                assert(held_with(front, client, prefix));
            }
        }
    }
}

#[verifier::spinoff_prover]
proof fn covering_is_longest(identities: Seq<IdentityView>, client: IpAddr)
    ensures
        match covering_identity(identities, client) {
            Some((i, longest)) => 0 <= i < identities.len() && identities[i].enabled && held_with(
                identities[i].client_cidrs,
                client,
                longest,
            ) && forall|k: int, prefix: int|
                0 <= k < identities.len() && identities[k].enabled && #[trigger] held_with(
                    identities[k].client_cidrs,
                    client,
                    prefix,
                ) ==> prefix <= longest && (k > i ==> prefix < longest),
            None => forall|k: int, prefix: int|
                0 <= k < identities.len() && identities[k].enabled ==> !#[trigger] held_with(
                    identities[k].client_cidrs,
                    client,
                    prefix,
                ),
        },
    decreases identities.len(),
{
    if identities.len() > 0 {
        let front = identities.drop_last();
        let last = identities.last();
        covering_is_longest(front, client);
        covering_prefix_is_longest(last.client_cidrs, client);
        assert forall|k: int| 0 <= k < front.len() implies front[k] == #[trigger] identities[k] by {}
        assert forall|k: int, prefix: int|
            0 <= k < identities.len() && identities[k].enabled && #[trigger] held_with(
                identities[k].client_cidrs,
                client,
                prefix,
            ) implies (if k < front.len() {
            held_with(front[k].client_cidrs, client, prefix)
        } else {
            prefix <= covering_prefix(last.client_cidrs, client)
        }) && prefix >= 0 by {}
    }
}

/// A client carries the label of the identity that lists its address, whatever networks other
/// identities have.
pub proof fn addresses_go_before_networks(identities: Seq<IdentityView>, client: IpAddr, i: int)
    requires
        0 <= i < identities.len(),
        identities[i].enabled,
        identities[i].clients.contains(client),
        forall|k: int|
            0 <= k < i && (#[trigger] identities[k]).enabled
                ==> !identities[k].clients.contains(client),
    ensures
        label_of(identities, Some(client)) == Some(identities[i].name),
{
    listed_is_exact(identities, client);
    assert(identities[i].enabled);
}

/// A client that no identity lists carries the label of the one whose network holds it with the
/// longest prefix, the last of several; where no network of an enabled identity holds it, it
/// carries none. Nor does a client without an address.
pub proof fn networks_label_by_the_longest_prefix(
    identities: Seq<IdentityView>,
    client: IpAddr,
    i: int,
    prefix: int,
)
    requires
        forall|k: int|
            0 <= k < identities.len() && (#[trigger] identities[k]).enabled
                ==> !identities[k].clients.contains(client),
    ensures
        label_of(identities, None) is None,
        0 <= i < identities.len() && identities[i].enabled && held_with(
            identities[i].client_cidrs,
            client,
            prefix,
        ) && (forall|k: int, other: int|
            0 <= k < identities.len() && identities[k].enabled && #[trigger] held_with(
                identities[k].client_cidrs,
                client,
                other,
            ) ==> other <= prefix && (k > i ==> other < prefix)) ==> label_of(
            identities,
            Some(client),
        ) == Some(identities[i].name),
        (forall|k: int, other: int|
            0 <= k < identities.len() && identities[k].enabled ==> !#[trigger] held_with(
                identities[k].client_cidrs,
                client,
                other,
            )) ==> label_of(identities, Some(client)) is None,
{
    listed_is_exact(identities, client);
    covering_is_longest(identities, client);
    if listed_identity(identities, client) is Some {
        assert(identities[listed_identity(identities, client)->0].enabled);
    }
}

/// Accepted identities have labels of their own, not empty and bounded, and one scope at least.
pub proof fn accepted_identities_are_bounded(identities: Seq<IdentityView>, i: int)
    requires
        identities_fault(identities) is None,
        0 <= i < identities.len(),
    ensures
        identities.len() <= 1_024,
        1 <= identities[i].name.len() && byte_len(identities[i].name) <= 128,
        1 <= identities[i].clients.len() + identities[i].client_cidrs.len() <= 256,
        forall|k: int|
            0 <= k < i ==> (#[trigger] identities[k]).name != identities[i].name,
{
    each_identity_is_bounded(identities, i);
}

proof fn each_identity_is_bounded(identities: Seq<IdentityView>, i: int)
    requires
        taken_by(identities) is Ok,
        0 <= i < identities.len(),
    ensures
        1 <= identities[i].name.len() && byte_len(identities[i].name) <= 128,
        1 <= identities[i].clients.len() + identities[i].client_cidrs.len() <= 256,
        forall|k: int|
            0 <= k < i ==> (#[trigger] identities[k]).name != identities[i].name,
        forall|k: int|
            0 <= k < identities.len() ==> taken_by(identities)->Ok_0.names.contains(
                (#[trigger] identities[k]).name,
            ),
    decreases identities.len(),
{
    let front = identities.drop_last();
    assert forall|k: int| 0 <= k < front.len() implies front[k] == #[trigger] identities[k] by {}
    if front.len() > 0 {
        each_identity_is_bounded(front, if i < front.len() { i } else { 0 });
    }
}

} // verus!
