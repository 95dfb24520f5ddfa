//! What the user asks for.

use crate::address::{is_address_of, lemma_key_is_unique};
use crate::connect::{timestamp_address, websocket_address};
use crate::miner::{basic_authorization, Miner};
use crate::text::{lemma_list_of_two, list_items, split_list, trimmed};
use crate::wire::{ready_bytes, solution_bytes};
use vstd::prelude::*;

verus! {

/// The options of a miner.
#[derive(Clone, Debug)]
pub struct MineArgs {
    /// The number of cores to mine on.
    pub cores: u32,
    /// The wallet address.
    pub address: String,
    /// The most seconds to spend on one task.
    pub cutoff: u32,
}

/// What a miner works by.
#[derive(Debug)]
pub struct Plan {
    pub address: String,
    pub threads: u32,
    pub max_cutoff: u32,
    /// The servers to take tasks from.
    pub servers: Vec<String>,
}

/// Whether `plan` is the one for these options and this list of servers.
pub open spec fn is_plan_for(args: MineArgs, url: Seq<char>, plan: Plan) -> bool {
    &&& plan.address@ == args.address@
    &&& plan.threads == args.cores
    &&& plan.max_cutoff == args.cutoff
    &&& plan.servers@.map_values(|server: String| server@) == list_items(url)
}

impl Plan {
    /// Works out a plan from the options and from `url`, a list of servers between commas.
    pub fn new(args: MineArgs, url: &str) -> (plan: Plan)
        ensures
            is_plan_for(args, url@, plan),
    {
        Plan {
            address: args.address,
            threads: args.cores,
            max_cutoff: args.cutoff,
            servers: split_list(url),
        }
    }
}

/// Two plans for the same options and the same list of servers are alike.
pub proof fn lemma_same_options_same_plan(
    args1: MineArgs,
    args2: MineArgs,
    url: Seq<char>,
    plan1: Plan,
    plan2: Plan,
)
    requires
        args1.address@ == args2.address@,
        args1.cores == args2.cores,
        args1.cutoff == args2.cutoff,
        is_plan_for(args1, url, plan1),
        is_plan_for(args2, url, plan2),
    ensures
        plan1.address@ == plan2.address@,
        plan1.threads == plan2.threads,
        plan1.max_cutoff == plan2.max_cutoff,
        plan1.servers@.len() == plan2.servers@.len(),
        forall|i: int|
            0 <= i < plan1.servers@.len() ==> (#[trigger] plan1.servers@[i])@
                == plan2.servers@[i]@,
{
    let view = |server: String| server@;
    assert(plan1.servers@.map_values(view) == plan2.servers@.map_values(view));
    assert forall|i: int| 0 <= i < plan1.servers@.len() implies (#[trigger] plan1.servers@[i])@
        == plan2.servers@[i]@ by {
        assert(plan1.servers@.map_values(view)[i] == plan1.servers@[i]@);
        assert(plan2.servers@.map_values(view)[i] == plan2.servers@[i]@);
    }
}

/// All that a miner sends follows from its address: the key, and with it each message of given
/// contents, and the header that names the miner.
pub proof fn lemma_same_address_same_messages(
    address: Seq<char>,
    miner1: Miner,
    miner2: Miner,
    now: u64,
    digest: Seq<u8>,
    nonce: u64,
)
    requires
        miner1.address() == address,
        miner2.address() == address,
        is_address_of(address, miner1.pubkey()),
        is_address_of(address, miner2.pubkey()),
    ensures
        miner1.pubkey() == miner2.pubkey(),
        ready_bytes(miner1.pubkey(), now) == ready_bytes(miner2.pubkey(), now),
        solution_bytes(digest, nonce, miner1.pubkey()) == solution_bytes(
            digest,
            nonce,
            miner2.pubkey(),
        ),
        basic_authorization(miner1.address()) == basic_authorization(miner2.address()),
{
    lemma_key_is_unique(address, miner1.pubkey(), miner2.pubkey());
}

/// Two miners with the same options and the same list of servers ask the same servers at the same
/// addresses.
pub proof fn lemma_same_options_same_addresses(
    args1: MineArgs,
    args2: MineArgs,
    url: Seq<char>,
    plan1: Plan,
    plan2: Plan,
    timestamp: u64,
    i: int,
)
    requires
        args1.address@ == args2.address@,
        args1.cores == args2.cores,
        args1.cutoff == args2.cutoff,
        is_plan_for(args1, url, plan1),
        is_plan_for(args2, url, plan2),
        0 <= i < plan1.servers@.len(),
    ensures
        i < plan2.servers@.len(),
        timestamp_address(plan1.servers@[i]@) == timestamp_address(plan2.servers@[i]@),
        websocket_address(plan1.servers@[i]@, timestamp) == websocket_address(
            plan2.servers@[i]@,
            timestamp,
        ),
{
    lemma_same_options_same_plan(args1, args2, url, plan1, plan2);
}

/// A plan keeps to the options as they are, and its servers are the items of the list.
pub proof fn lemma_plan_keeps_to_the_options(args: MineArgs, url: &str, plan: Plan)
    requires
        call_ensures(Plan::new, (args, url), plan),
    ensures
        plan.address@ == args.address@,
        plan.threads == args.cores,
        plan.max_cutoff == args.cutoff,
        plan.servers@.map_values(|server: String| server@) == list_items(url@),
        !url@.contains(',') ==> plan.servers@.len() == 1 && plan.servers@[0]@ == trimmed(url@),
        forall|a: Seq<char>, b: Seq<char>|
            url@ == #[trigger] (a.push(',') + b) ==> plan.servers@.map_values(
                |server: String| server@,
            ) == list_items(a) + list_items(b),
{
    let views = plan.servers@.map_values(|server: String| server@);
    lemma_list_of_two(url@, url@);
    if !url@.contains(',') {
        assert(views.len() == 1 && views[0] == trimmed(url@));
    }
    assert forall|a: Seq<char>, b: Seq<char>|
        url@ == #[trigger] (a.push(',') + b) implies views == list_items(a) + list_items(b) by {
        lemma_list_of_two(a, b);
    }
}

} // verus!
