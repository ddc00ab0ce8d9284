//! Chain instances and their isolated state sandboxes.
//!
//! Each instance owns a sandbox no other instance can reach: a block counter,
//! an asset registry and an account-balance book. Executing an operation runs
//! entirely inside the instance's own sandbox; its only outward effect is a
//! list of messages to enqueue, which the orchestrator moves later. A fault
//! during execution is recorded against the chain and the triggering message
//! is dropped, never requeued.

use vstd::prelude::*;

use crate::convert::CurrencyIdConvert;
use crate::location::Location;
use crate::registry::lemma_find_meta_at;
use crate::registry::lemma_find_meta_none;
use crate::registry::lemma_find_owner_none;
use crate::registry::AssetMetadata;
use crate::registry::Registry;
use crate::registry::RegistryError;
use crate::AccountId;
use crate::Balance;
use crate::CurrencyId;
use crate::ALICE;

verus! {

/// Chain id of the coordinator (parent) chain of the simulated network.
pub const COORDINATOR_ID: u32 = 0;

/// Currency id every chain endows at genesis.
pub const NATIVE_CURRENCY: CurrencyId = 0;

/// Balance every genesis endows to the well-known first account.
pub const GENESIS_ENDOWMENT: Balance = 1000;

/// A fault recorded against a chain while it executed a message.
#[derive(Clone, Copy, PartialEq, Eq, Structural, Debug)]
pub enum Fault {
    /// The message named an asset location the chain cannot resolve.
    UnresolvedAsset,
    /// Crediting the beneficiary would overflow its balance.
    Overflow,
    /// The debited account holds less than the requested amount.
    InsufficientBalance,
}

/// An operation a chain executes inside its own sandbox.
#[derive(Clone, Copy, PartialEq, Eq, Structural, Debug)]
pub enum Operation {
    /// Credit `amount` of the asset at location `asset` to account `to`.
    Deposit { asset: Location, to: AccountId, amount: Balance },
    /// A multi-hop probe: while `ttl` is positive, bounce once more to
    /// `next`, which bounces back with `ttl` decreased.
    Hop { next: u32, ttl: u8 },
}

/// Length of the message chain an operation can still trigger: an execution
/// of an operation enqueues at most one further message, and only with a
/// strictly smaller depth.
pub open spec fn op_depth(op: Operation) -> int {
    match op {
        Operation::Deposit { .. } => 0,
        Operation::Hop { next: _, ttl } => ttl as int,
    }
}

/// The message one execution of `op` on the chain with id `executor` emits,
/// if any: an execution enqueues at most one further message. A deposit emits
/// nothing whether it lands or faults; a hop with time to live left bounces
/// back once.
pub open spec fn spec_emission(executor: u32, op: Operation) -> Option<(u32, Operation)> {
    match op {
        Operation::Deposit { .. } => None,
        Operation::Hop { next, ttl } => if ttl == 0 {
            None
        } else {
            Some((next, Operation::Hop { next: executor, ttl: (ttl - 1) as u8 }))
        },
    }
}

/// Outbound consequence of one execution: messages to enqueue, each a
/// (destination chain, operation) pair.
pub struct Effects {
    /// Messages the executing chain asks the orchestrator to enqueue.
    pub outbound: Vec<(u32, Operation)>,
}

/// Balance row found first (newest shadowing row wins), scanning from the
/// front.
pub open spec fn find_balance(
    s: Seq<(AccountId, CurrencyId, Balance)>,
    who: AccountId,
    asset: CurrencyId,
) -> Option<Balance>
    decreases s.len(),
{
    if s.len() == 0 {
        None
    } else if s[0].0 == who && s[0].1 == asset {
        Some(s[0].2)
    } else {
        find_balance(s.drop_first(), who, asset)
    }
}

/// Current balance of an account in one asset; an absent row means zero.
pub open spec fn spec_balance(
    s: Seq<(AccountId, CurrencyId, Balance)>,
    who: AccountId,
    asset: CurrencyId,
) -> Balance {
    match find_balance(s, who, asset) {
        Some(b) => b,
        None => 0,
    }
}

/// Isolated per-chain state: block counter, registry, balance book and the
/// log of faults recorded against the chain.
pub struct Sandbox {
    block: u64,
    registry: Registry,
    balances: Vec<(AccountId, CurrencyId, Balance)>,
    faults: Vec<Fault>,
}

impl Sandbox {
    /// The chain's block counter.
    pub closed spec fn spec_block(self) -> u64 {
        self.block
    }

    /// The chain's asset registry.
    pub closed spec fn spec_registry(self) -> Registry {
        self.registry
    }

    /// The balance book, newest shadowing row first.
    pub closed spec fn spec_balances(self) -> Seq<(AccountId, CurrencyId, Balance)> {
        self.balances@
    }

    /// Faults recorded against the chain, oldest first.
    pub closed spec fn spec_faults(self) -> Seq<Fault> {
        self.faults@
    }

    /// Current balance of `who` in `asset`.
    pub open spec fn spec_balance_of(self, who: AccountId, asset: CurrencyId) -> Balance {
        spec_balance(self.spec_balances(), who, asset)
    }

    /// The registry keeps its bijection invariant.
    pub open spec fn wf(self) -> bool {
        self.spec_registry().wf()
    }

    /// A fresh sandbox: block zero, nothing registered, nothing endowed.
    pub fn new() -> (r: Sandbox)
        ensures
            r.wf(),
            r.spec_block() == 0,
            r.spec_registry().entries_seq() =~= Seq::<(CurrencyId, AssetMetadata)>::empty(),
            r.spec_balances() =~= Seq::<(AccountId, CurrencyId, Balance)>::empty(),
            r.spec_faults() =~= Seq::<Fault>::empty(),
            forall|a: AccountId, c: CurrencyId| r.spec_balance_of(a, c) == 0,
    {
        Sandbox { block: 0, registry: Registry::new(), balances: Vec::new(), faults: Vec::new() }
    }

    /// Read access to the registry, for conversions.
    pub fn registry(&self) -> (r: &Registry)
        ensures
            *r == self.spec_registry(),
    {
        &self.registry
    }

    /// The chain's block counter.
    pub fn block(&self) -> (r: u64)
        ensures
            r == self.spec_block(),
    {
        self.block
    }

    /// Number of faults recorded so far.
    pub fn fault_count(&self) -> (r: usize)
        ensures
            r == self.spec_faults().len(),
    {
        self.faults.len()
    }

    /// Advancing the block counter is an explicit operation, distinct from
    /// message delivery.
    pub fn advance_block(&mut self)
        requires
            old(self).spec_block() < u64::MAX,
        ensures
            final(self).spec_block() == old(self).spec_block() + 1,
            final(self).spec_registry() == old(self).spec_registry(),
            final(self).spec_balances() == old(self).spec_balances(),
            final(self).spec_faults() == old(self).spec_faults(),
    {
        self.block = self.block + 1;
    }

    /// Records a fault against the chain.
    pub fn record_fault(&mut self, fault: Fault)
        ensures
            final(self).spec_faults() == old(self).spec_faults().push(fault),
            final(self).spec_block() == old(self).spec_block(),
            final(self).spec_registry() == old(self).spec_registry(),
            final(self).spec_balances() == old(self).spec_balances(),
    {
        self.faults.push(fault);
    }

    /// Current balance of `who` in `asset`.
    pub fn balance_of(&self, who: AccountId, asset: CurrencyId) -> (r: Balance)
        ensures
            r == self.spec_balance_of(who, asset),
    {
        let s = Ghost(self.balances@);
        let n = self.balances.len();
        let mut i: usize = 0;
        proof {
            assert(s@.skip(0) =~= s@);
        }
        while i < n
            invariant
                n == s@.len(),
                s@ == self.balances@,
                0 <= i <= n,
                find_balance(s@, who, asset) == find_balance(s@.skip(i as int), who, asset),
            decreases n - i,
        {
            let row = self.balances[i];
            if row.0 == who && row.1 == asset {
                proof {
                    assert(s@.skip(i as int)[0] == s@[i as int]);
                }
                return row.2;
            }
            proof {
                assert(s@.skip(i as int)[0] == s@[i as int]);
                assert(s@.skip(i as int).drop_first() =~= s@.skip(i as int + 1));
            }
            i += 1;
        }
        proof {
            assert(s@.skip(n as int) =~= Seq::<(AccountId, CurrencyId, Balance)>::empty());
        }
        0
    }

    /// Writes a new newest row for `(who, asset)`; every other balance is
    /// untouched.
    fn put_balance(&mut self, who: AccountId, asset: CurrencyId, value: Balance)
        ensures
            final(self).spec_balances() == old(self).spec_balances().insert(
                0,
                (who, asset, value),
            ),
            final(self).spec_balance_of(who, asset) == value,
            forall|a: AccountId, c: CurrencyId|
                !(a == who && c == asset) ==> final(self).spec_balance_of(a, c) == old(self).spec_balance_of(a, c),
            final(self).spec_block() == old(self).spec_block(),
            final(self).spec_registry() == old(self).spec_registry(),
            final(self).spec_faults() == old(self).spec_faults(),
    {
        self.balances.insert(0, (who, asset, value));
        proof {
            let s0 = old(self).balances@;
            let s1 = self.balances@;
            assert(s1[0] == (who, asset, value));
            assert(s1.drop_first() =~= s0);
            assert forall|a: AccountId, c: CurrencyId| !(a == who && c == asset) implies
                spec_balance(s1, a, c) == spec_balance(s0, a, c) by {
                assert(find_balance(s1, a, c) == find_balance(s1.drop_first(), a, c));
            }
        }
    }

    /// Credits `amount` of `asset` to `who`, or faults on overflow without
    /// touching any balance.
    pub fn credit(&mut self, who: AccountId, asset: CurrencyId, amount: Balance) -> (r: Result<
        (),
        Fault,
    >)
        ensures
            final(self).spec_block() == old(self).spec_block(),
            final(self).spec_registry() == old(self).spec_registry(),
            final(self).spec_faults() == old(self).spec_faults(),
            match r {
                Ok(_) => old(self).spec_balance_of(who, asset) + amount <= Balance::MAX && final(self).spec_balances() == old(self).spec_balances().insert(
                    0,
                    (who, asset, (old(self).spec_balance_of(who, asset) + amount) as Balance),
                ) && final(self).spec_balance_of(who, asset) == old(self).spec_balance_of(
                    who,
                    asset,
                ) + amount && (forall|a: AccountId, c: CurrencyId|
                    !(a == who && c == asset) ==> final(self).spec_balance_of(a, c) == old(self).spec_balance_of(a, c)),
                Err(Fault::Overflow) => old(self).spec_balance_of(who, asset) + amount
                    > Balance::MAX && final(self).spec_balances() == old(self).spec_balances(),
                Err(_) => false,
            },
    {
        let cur = self.balance_of(who, asset);
        if amount > Balance::MAX - cur {
            return Err(Fault::Overflow);
        }
        self.put_balance(who, asset, cur + amount);
        Ok(())
    }

    /// Debits `amount` of `asset` from `who`, or faults on insufficiency
    /// without touching any balance.
    pub fn debit(&mut self, who: AccountId, asset: CurrencyId, amount: Balance) -> (r: Result<
        (),
        Fault,
    >)
        ensures
            final(self).spec_block() == old(self).spec_block(),
            final(self).spec_registry() == old(self).spec_registry(),
            final(self).spec_faults() == old(self).spec_faults(),
            match r {
                Ok(_) => old(self).spec_balance_of(who, asset) >= amount && final(self).spec_balance_of(who, asset) == old(self).spec_balance_of(who, asset) - amount && (
                forall|a: AccountId, c: CurrencyId|
                    !(a == who && c == asset) ==> final(self).spec_balance_of(a, c) == old(self).spec_balance_of(a, c)),
                Err(Fault::InsufficientBalance) => old(self).spec_balance_of(who, asset) < amount
                    && final(self).spec_balances() == old(self).spec_balances(),
                Err(_) => false,
            },
    {
        let cur = self.balance_of(who, asset);
        if cur < amount {
            return Err(Fault::InsufficientBalance);
        }
        self.put_balance(who, asset, cur - amount);
        Ok(())
    }

    /// Registers an asset in the chain's registry; the sandbox is otherwise
    /// untouched, and on an error the registry is unchanged too.
    pub fn register_asset(&mut self, id: CurrencyId, metadata: AssetMetadata) -> (r: Result<
        (),
        RegistryError,
    >)
        requires
            old(self).wf(),
        ensures
            final(self).wf(),
            final(self).spec_block() == old(self).spec_block(),
            final(self).spec_balances() == old(self).spec_balances(),
            final(self).spec_faults() == old(self).spec_faults(),
            match r {
                Ok(_) => old(self).spec_registry().spec_metadata_of(id) is None && (
                metadata.location is Some ==> old(self).spec_registry().spec_id_of(
                    metadata.location->Some_0,
                ) is None) && final(self).spec_registry().entries_seq() == old(self).spec_registry().entries_seq().push((id, metadata)),
                Err(RegistryError::DuplicateId) => old(self).spec_registry().spec_metadata_of(
                    id,
                ) is Some && final(self).spec_registry() == old(self).spec_registry(),
                Err(RegistryError::ConflictingLocation) => old(self).spec_registry()
                    .spec_metadata_of(id) is None && metadata.location is Some && old(self).spec_registry().spec_id_of(metadata.location->Some_0) is Some && final(self).spec_registry() == old(self).spec_registry(),
            },
    {
        self.registry.register(id, metadata)
    }
}

/// A chain instance: its network-wide id and its isolated sandbox.
pub struct ChainInstance {
    id: u32,
    sandbox: Sandbox,
}

impl ChainInstance {
    /// The chain's network-wide id.
    pub closed spec fn spec_id(self) -> u32 {
        self.id
    }

    /// The chain's isolated state.
    pub closed spec fn spec_sandbox(self) -> Sandbox {
        self.sandbox
    }

    /// The sandbox keeps its invariant.
    pub open spec fn wf(self) -> bool {
        self.spec_sandbox().wf()
    }

    /// How one execution of `op` takes the chain from `pre` to `post`: the
    /// id, block and registry never move; a resolvable deposit with headroom
    /// credits the beneficiary and nothing else; any other deposit leaves the
    /// balances alone and records exactly one fault; a hop touches nothing.
    pub open spec fn spec_step(pre: ChainInstance, op: Operation, post: ChainInstance) -> bool {
        &&& post.spec_id() == pre.spec_id()
        &&& post.spec_sandbox().spec_block() == pre.spec_sandbox().spec_block()
        &&& post.spec_sandbox().spec_registry() == pre.spec_sandbox().spec_registry()
        &&& match op {
            Operation::Deposit { asset, to, amount } => {
                match CurrencyIdConvert::spec_convert_location(
                    pre.spec_sandbox().spec_registry(),
                    asset,
                ) {
                    Some(cid) => {
                        if pre.spec_sandbox().spec_balance_of(to, cid) + amount <= Balance::MAX {
                            &&& post.spec_sandbox().spec_balance_of(to, cid)
                                == pre.spec_sandbox().spec_balance_of(to, cid) + amount
                            &&& (forall|a: AccountId, c: CurrencyId|
                                !(a == to && c == cid) ==> post.spec_sandbox().spec_balance_of(
                                    a,
                                    c,
                                ) == pre.spec_sandbox().spec_balance_of(a, c))
                            &&& post.spec_sandbox().spec_faults()
                                == pre.spec_sandbox().spec_faults()
                        } else {
                            &&& post.spec_sandbox().spec_balances()
                                == pre.spec_sandbox().spec_balances()
                            &&& post.spec_sandbox().spec_faults()
                                == pre.spec_sandbox().spec_faults().push(Fault::Overflow)
                        }
                    },
                    None => {
                        &&& post.spec_sandbox().spec_balances()
                            == pre.spec_sandbox().spec_balances()
                        &&& post.spec_sandbox().spec_faults()
                            == pre.spec_sandbox().spec_faults().push(Fault::UnresolvedAsset)
                    },
                }
            },
            Operation::Hop { .. } => {
                &&& post.spec_sandbox().spec_balances() == pre.spec_sandbox().spec_balances()
                &&& post.spec_sandbox().spec_faults() == pre.spec_sandbox().spec_faults()
            },
        }
    }

    /// A fresh instance with an empty sandbox.
    pub fn new(id: u32) -> (r: ChainInstance)
        ensures
            r.wf(),
            r.spec_id() == id,
            r.spec_sandbox().spec_block() == 0,
            r.spec_sandbox().spec_registry().entries_seq() =~= Seq::<
                (CurrencyId, AssetMetadata),
            >::empty(),
            r.spec_sandbox().spec_balances() =~= Seq::<(AccountId, CurrencyId, Balance)>::empty(),
            r.spec_sandbox().spec_faults() =~= Seq::<Fault>::empty(),
            forall|a: AccountId, c: CurrencyId| r.spec_sandbox().spec_balance_of(a, c) == 0,
    {
        ChainInstance { id, sandbox: Sandbox::new() }
    }

    /// The chain's network-wide id.
    pub fn id(&self) -> (r: u32)
        ensures
            r == self.spec_id(),
    {
        self.id
    }

    /// Read access to the chain's state.
    pub fn sandbox(&self) -> (r: &Sandbox)
        ensures
            *r == self.spec_sandbox(),
    {
        &self.sandbox
    }

    /// Advances the chain's block counter by one.
    pub fn advance_block(&mut self)
        requires
            old(self).spec_sandbox().spec_block() < u64::MAX,
        ensures
            final(self).spec_id() == old(self).spec_id(),
            final(self).spec_sandbox().spec_block() == old(self).spec_sandbox().spec_block() + 1,
            final(self).spec_sandbox().spec_registry() == old(self).spec_sandbox().spec_registry(),
            final(self).spec_sandbox().spec_balances() == old(self).spec_sandbox().spec_balances(),
            final(self).spec_sandbox().spec_faults() == old(self).spec_sandbox().spec_faults(),
    {
        self.sandbox.advance_block();
    }

    /// Registers an asset in the chain's registry.
    pub fn register_asset(&mut self, id: CurrencyId, metadata: AssetMetadata) -> (r: Result<
        (),
        RegistryError,
    >)
        requires
            old(self).wf(),
        ensures
            final(self).wf(),
            final(self).spec_id() == old(self).spec_id(),
            final(self).spec_sandbox().spec_block() == old(self).spec_sandbox().spec_block(),
            final(self).spec_sandbox().spec_balances() == old(self).spec_sandbox().spec_balances(),
            final(self).spec_sandbox().spec_faults() == old(self).spec_sandbox().spec_faults(),
            match r {
                Ok(_) => old(self).spec_sandbox().spec_registry().spec_metadata_of(id) is None && (
                metadata.location is Some ==> old(self).spec_sandbox().spec_registry().spec_id_of(
                    metadata.location->Some_0,
                ) is None) && final(self).spec_sandbox().spec_registry().entries_seq() == old(self).spec_sandbox().spec_registry().entries_seq().push((id, metadata)),
                Err(RegistryError::DuplicateId) => old(self).spec_sandbox().spec_registry()
                    .spec_metadata_of(id) is Some && final(self).spec_sandbox().spec_registry()
                    == old(self).spec_sandbox().spec_registry(),
                Err(RegistryError::ConflictingLocation) => old(self).spec_sandbox().spec_registry()
                    .spec_metadata_of(id) is None && metadata.location is Some && old(self)
                    .spec_sandbox().spec_registry().spec_id_of(metadata.location->Some_0) is Some
                    && final(self).spec_sandbox().spec_registry() == old(self).spec_sandbox()
                    .spec_registry(),
            },
    {
        self.sandbox.register_asset(id, metadata)
    }

    /// Debits `amount` of `asset` from `who` inside the chain's sandbox.
    pub fn debit(&mut self, who: AccountId, asset: CurrencyId, amount: Balance) -> (r: Result<
        (),
        Fault,
    >)
        requires
            old(self).wf(),
        ensures
            final(self).wf(),
            final(self).spec_id() == old(self).spec_id(),
            final(self).spec_sandbox().spec_block() == old(self).spec_sandbox().spec_block(),
            final(self).spec_sandbox().spec_registry() == old(self).spec_sandbox().spec_registry(),
            final(self).spec_sandbox().spec_faults() == old(self).spec_sandbox().spec_faults(),
            match r {
                Ok(_) => old(self).spec_sandbox().spec_balance_of(who, asset) >= amount && final(self).spec_sandbox().spec_balance_of(who, asset) == old(self).spec_sandbox()
                    .spec_balance_of(who, asset) - amount && (forall|a: AccountId, c: CurrencyId|
                    !(a == who && c == asset) ==> final(self).spec_sandbox().spec_balance_of(a, c)
                        == old(self).spec_sandbox().spec_balance_of(a, c)),
                Err(Fault::InsufficientBalance) => old(self).spec_sandbox().spec_balance_of(
                    who,
                    asset,
                ) < amount && final(self).spec_sandbox().spec_balances() == old(self).spec_sandbox().spec_balances(),
                Err(_) => false,
            },
    {
        self.sandbox.debit(who, asset, amount)
    }

    /// Executes one operation inside the chain's own sandbox. A fault is
    /// recorded against the chain and reported to the caller, who drops the
    /// triggering message; the registry and block counter never change.
    pub fn execute(&mut self, op: Operation) -> (r: Result<Effects, Fault>)
        requires
            old(self).wf(),
        ensures
            final(self).wf(),
            ChainInstance::spec_step(*old(self), op, *final(self)),
            match r {
                Ok(eff) => eff.outbound@ == (match spec_emission(old(self).spec_id(), op) {
                    Some(p) => seq![p],
                    None => Seq::<(u32, Operation)>::empty(),
                }),
                Err(_) => spec_emission(old(self).spec_id(), op) is None,
            },
            final(self).spec_id() == old(self).spec_id(),
            final(self).spec_sandbox().spec_block() == old(self).spec_sandbox().spec_block(),
            final(self).spec_sandbox().spec_registry() == old(self).spec_sandbox().spec_registry(),
            match op {
                Operation::Deposit { asset, to, amount } => {
                    match CurrencyIdConvert::spec_convert_location(
                        old(self).spec_sandbox().spec_registry(),
                        asset,
                    ) {
                        Some(cid) => {
                            if old(self).spec_sandbox().spec_balance_of(to, cid) + amount
                                <= Balance::MAX {
                                &&& r matches Ok(eff) && eff.outbound@.len() == 0
                                &&& final(self).spec_sandbox().spec_balance_of(to, cid) == old(self).spec_sandbox().spec_balance_of(to, cid) + amount
                                &&& (forall|a: AccountId, c: CurrencyId|
                                    !(a == to && c == cid) ==> final(self).spec_sandbox().spec_balance_of(a, c) == old(self).spec_sandbox().spec_balance_of(a, c))
                                &&& final(self).spec_sandbox().spec_faults() == old(self).spec_sandbox().spec_faults()
                            } else {
                                &&& r == Err::<Effects, Fault>(Fault::Overflow)
                                &&& final(self).spec_sandbox().spec_balances() == old(self).spec_sandbox().spec_balances()
                                &&& final(self).spec_sandbox().spec_faults() == old(self).spec_sandbox().spec_faults().push(Fault::Overflow)
                            }
                        },
                        None => {
                            &&& r == Err::<Effects, Fault>(Fault::UnresolvedAsset)
                            &&& final(self).spec_sandbox().spec_balances() == old(self).spec_sandbox().spec_balances()
                            &&& final(self).spec_sandbox().spec_faults() == old(self).spec_sandbox().spec_faults().push(Fault::UnresolvedAsset)
                        },
                    }
                },
                Operation::Hop { next, ttl } => {
                    &&& final(self).spec_sandbox().spec_balances() == old(self).spec_sandbox().spec_balances()
                    &&& final(self).spec_sandbox().spec_faults() == old(self).spec_sandbox().spec_faults()
                    &&& if ttl == 0 {
                        r matches Ok(eff) && eff.outbound@.len() == 0
                    } else {
                        r matches Ok(eff) && eff.outbound@ =~= seq![
                            (next, (Operation::Hop { next: old(self).spec_id(), ttl: (ttl - 1) as u8 })),
                        ]
                    }
                },
            },
    {
        match op {
            Operation::Deposit { asset, to, amount } => {
                match CurrencyIdConvert::convert_location(&self.sandbox.registry, &asset) {
                    Some(cid) => {
                        match self.sandbox.credit(to, cid, amount) {
                            Ok(_) => Ok(Effects { outbound: Vec::new() }),
                            Err(fault) => {
                                self.sandbox.record_fault(fault);
                                Err(fault)
                            },
                        }
                    },
                    None => {
                        self.sandbox.record_fault(Fault::UnresolvedAsset);
                        Err(Fault::UnresolvedAsset)
                    },
                }
            },
            Operation::Hop { next, ttl } => {
                let mut outbound: Vec<(u32, Operation)> = Vec::new();
                if ttl > 0 {
                    outbound.push((next, Operation::Hop { next: self.id, ttl: ttl - 1 }));
                }
                Ok(Effects { outbound })
            },
        }
    }
}

/// The genesis balance book holds exactly the well-known endowment row, so
/// every other account holds zero in every asset.
proof fn lemma_genesis_book(s: Seq<(AccountId, CurrencyId, Balance)>)
    requires
        s == Seq::<(AccountId, CurrencyId, Balance)>::empty().insert(0, (ALICE, NATIVE_CURRENCY, GENESIS_ENDOWMENT)),
    ensures
        s == seq![(ALICE, NATIVE_CURRENCY, GENESIS_ENDOWMENT)],
        spec_balance(s, ALICE, NATIVE_CURRENCY) == GENESIS_ENDOWMENT,
        forall|a: AccountId, c: CurrencyId|
            !(a == ALICE && c == NATIVE_CURRENCY) ==> spec_balance(s, a, c) == 0,
{
    assert(s =~= seq![(ALICE, NATIVE_CURRENCY, GENESIS_ENDOWMENT)]);
    assert(s[0] == (ALICE, NATIVE_CURRENCY, GENESIS_ENDOWMENT));
    assert(s.drop_first() =~= Seq::<(AccountId, CurrencyId, Balance)>::empty());
    assert forall|a: AccountId, c: CurrencyId| !(a == ALICE && c == NATIVE_CURRENCY) implies
        spec_balance(s, a, c) == 0 by {
        assert(find_balance(s, a, c) == find_balance(s.drop_first(), a, c));
    }
}

/// Builds a satellite chain instance at block one, with the well-known first
/// account endowed in the native currency and the given assets registered.
///
/// The given assets must carry pairwise-distinct ids and pairwise-distinct
/// locations, as a genesis configuration does; a conflicting configuration is
/// a setup mistake, not a runtime condition.
pub fn para_ext(para_id: u32, asset_data: Option<Vec<(CurrencyId, AssetMetadata)>>) -> (r:
    ChainInstance)
    requires
        match asset_data {
            Some(assets) => {
                &&& (forall|i: int, j: int|
                    0 <= i < j < assets@.len() ==> assets@[i].0 != assets@[j].0)
                &&& (forall|i: int, j: int|
                    0 <= i < j < assets@.len() && assets@[i].1.location is Some
                        ==> assets@[i].1.location != assets@[j].1.location)
            },
            None => true,
        },
    ensures
        r.wf(),
        r.spec_id() == para_id,
        r.spec_sandbox().spec_block() == 1,
        r.spec_sandbox().spec_balances() == seq![(ALICE, NATIVE_CURRENCY, GENESIS_ENDOWMENT)],
        r.spec_sandbox().spec_balance_of(ALICE, NATIVE_CURRENCY) == GENESIS_ENDOWMENT,
        forall|a: AccountId, c: CurrencyId|
            !(a == ALICE && c == NATIVE_CURRENCY) ==> r.spec_sandbox().spec_balance_of(a, c) == 0,
        r.spec_sandbox().spec_faults().len() == 0,
        match asset_data {
            Some(assets) => r.spec_sandbox().spec_registry().entries_seq() == assets@ && (forall|
                i: int,
            |
                0 <= i < assets@.len() ==> r.spec_sandbox().spec_registry().spec_metadata_of(
                    assets@[i].0,
                ) == Some(assets@[i].1)),
            None => r.spec_sandbox().spec_registry().entries_seq().len() == 0,
        },
{
    let mut chain = ChainInstance::new(para_id);
    chain.advance_block();
    let _endowed = chain.sandbox.credit(ALICE, NATIVE_CURRENCY, GENESIS_ENDOWMENT);
    proof {
        lemma_genesis_book(chain.spec_sandbox().spec_balances());
    }
    match asset_data {
        Some(assets) => {
            let ghost orig = assets@;
            let mut assets = assets;
            proof {
                assert(assets@ =~= orig.skip(0));
                assert(chain.spec_sandbox().spec_registry().entries_seq() =~= orig.take(0));
            }
            while assets.len() > 0
                invariant
                    chain.wf(),
                    chain.spec_id() == para_id,
                    chain.spec_sandbox().spec_block() == 1,
                    chain.spec_sandbox().spec_balances() == seq![(ALICE, NATIVE_CURRENCY, GENESIS_ENDOWMENT)],
                    chain.spec_sandbox().spec_faults().len() == 0,
                    assets@.len() <= orig.len(),
                    assets@ == orig.skip(orig.len() - assets@.len()),
                    chain.spec_sandbox().spec_registry().entries_seq() == orig.take(
                        orig.len() - assets@.len(),
                    ),
                    forall|i: int, j: int| 0 <= i < j < orig.len() ==> orig[i].0 != orig[j].0,
                    forall|i: int, j: int|
                        0 <= i < j < orig.len() && orig[i].1.location is Some ==> orig[i].1.location
                            != orig[j].1.location,
                decreases assets@.len(),
            {
                let ghost done = orig.len() - assets@.len();
                let (id, meta) = assets.remove(0);
                proof {
                    assert(orig.skip(done)[0] == orig[done]);
                    assert((id, meta) == orig[done]);
                    assert(assets@ =~= orig.skip(done + 1));
                    let reg = chain.spec_sandbox().spec_registry().entries_seq();
                    assert forall|p: int| 0 <= p < reg.len() implies reg[p].0 != id by {
                        assert(reg[p] == orig[p]);
                        assert(orig[p].0 != orig[done].0);
                    }
                    lemma_find_meta_none(reg, id);
                    if meta.location is Some {
                        assert forall|p: int| 0 <= p < reg.len() implies reg[p].1.location != Some(
                            meta.location->Some_0,
                        ) by {
                            assert(reg[p] == orig[p]);
                            if orig[p].1.location is Some {
                                assert(orig[p].1.location != orig[done].1.location);
                            }
                        }
                        lemma_find_owner_none(reg, meta.location->Some_0);
                    }
                }
                let res = chain.register_asset(id, meta);
                proof {
                    assert(res is Ok);
                    assert(chain.spec_sandbox().spec_registry().entries_seq() =~= orig.take(
                        done + 1,
                    ));
                }
            }
            proof {
                assert(chain.spec_sandbox().spec_registry().entries_seq() =~= orig);
                let reg = chain.spec_sandbox().spec_registry().entries_seq();
                assert forall|i: int| 0 <= i < orig.len() implies
                    chain.spec_sandbox().spec_registry().spec_metadata_of(orig[i].0) == Some(
                    orig[i].1,
                ) by {
                    lemma_find_meta_at(reg, i);
                }
            }
            chain
        },
        None => chain,
    }
}

/// Builds the coordinator chain instance at block one, with the well-known
/// first account endowed in the native currency and an empty registry.
pub fn relay_ext() -> (r: ChainInstance)
    ensures
        r.wf(),
        r.spec_id() == COORDINATOR_ID,
        r.spec_sandbox().spec_block() == 1,
        r.spec_sandbox().spec_balances() == seq![(ALICE, NATIVE_CURRENCY, GENESIS_ENDOWMENT)],
        r.spec_sandbox().spec_balance_of(ALICE, NATIVE_CURRENCY) == GENESIS_ENDOWMENT,
        forall|a: AccountId, c: CurrencyId|
            !(a == ALICE && c == NATIVE_CURRENCY) ==> r.spec_sandbox().spec_balance_of(a, c) == 0,
        r.spec_sandbox().spec_faults().len() == 0,
        r.spec_sandbox().spec_registry().entries_seq().len() == 0,
{
    let mut chain = ChainInstance::new(COORDINATOR_ID);
    chain.advance_block();
    let _endowed = chain.sandbox.credit(ALICE, NATIVE_CURRENCY, GENESIS_ENDOWMENT);
    proof {
        lemma_genesis_book(chain.spec_sandbox().spec_balances());
    }
    chain
}

} // verus!
