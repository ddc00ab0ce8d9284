//! Per-chain asset registry: an append-only store of asset metadata with a
//! derived bijection between ids and the locations their metadata carries.
//!
//! At most one id owns a given location and at most one entry carries a given
//! id; mutation happens only by registration, never by overwrite, and a
//! registration either commits the whole entry or commits nothing.

use vstd::prelude::*;

use crate::location::Location;
use crate::Balance;
use crate::CurrencyId;

verus! {

/// Chain-specific additional payload carried by asset metadata.
#[derive(Clone, Copy, PartialEq, Eq, Structural, Debug)]
pub struct CustomMetadata {
    /// Fee-weighting factor applied when the asset pays for execution.
    pub fee_per_second: u128,
}

/// Immutable description of one registered asset.
pub struct AssetMetadata {
    /// Number of decimal places of the asset's display unit.
    pub decimals: u32,
    /// Display name, as raw bytes.
    pub name: Vec<u8>,
    /// Display symbol, as raw bytes.
    pub symbol: Vec<u8>,
    /// Smallest balance an account may hold without being reaped.
    pub existential_deposit: Balance,
    /// Canonical network-wide location of the asset, if it has one.
    pub location: Option<Location>,
    /// Chain-specific additional payload.
    pub additional: CustomMetadata,
}

/// Why a registration was refused.
#[derive(Clone, Copy, PartialEq, Eq, Structural, Debug)]
pub enum RegistryError {
    /// The id is already registered.
    DuplicateId,
    /// The metadata's location is already owned by another id.
    ConflictingLocation,
}

/// Metadata of the first entry registered under `id`, scanning from the front.
pub open spec fn find_meta(s: Seq<(CurrencyId, AssetMetadata)>, id: CurrencyId) -> Option<
    AssetMetadata,
>
    decreases s.len(),
{
    if s.len() == 0 {
        None
    } else if s[0].0 == id {
        Some(s[0].1)
    } else {
        find_meta(s.drop_first(), id)
    }
}

/// Id of the first entry whose metadata owns `loc`, scanning from the front.
pub open spec fn find_owner(s: Seq<(CurrencyId, AssetMetadata)>, loc: Location) -> Option<
    CurrencyId,
>
    decreases s.len(),
{
    if s.len() == 0 {
        None
    } else if s[0].1.location == Some(loc) {
        Some(s[0].0)
    } else {
        find_owner(s.drop_first(), loc)
    }
}

/// `find_meta` misses exactly when no entry carries the id.
pub proof fn lemma_find_meta_none(s: Seq<(CurrencyId, AssetMetadata)>, id: CurrencyId)
    ensures
        find_meta(s, id) is None <==> (forall|i: int| 0 <= i < s.len() ==> s[i].0 != id),
    decreases s.len(),
{
    if s.len() > 0 {
        lemma_find_meta_none(s.drop_first(), id);
        if find_meta(s, id) is None {
            assert forall|i: int| 0 <= i < s.len() implies s[i].0 != id by {
                if i > 0 {
                    assert(s.drop_first()[i - 1] == s[i]);
                    assert(s.drop_first()[i - 1].0 != id);
                }
            }
        } else if forall|i: int| 0 <= i < s.len() ==> s[i].0 != id {
            assert(s[0].0 != id);
            assert forall|j: int| 0 <= j < s.drop_first().len() implies s.drop_first()[j].0
                != id by {
                assert(s.drop_first()[j] == s[j + 1]);
                assert(s[j + 1].0 != id);
            }
        }
    }
}

/// `find_owner` misses exactly when no entry owns the location.
pub proof fn lemma_find_owner_none(s: Seq<(CurrencyId, AssetMetadata)>, loc: Location)
    ensures
        find_owner(s, loc) is None <==> (forall|i: int|
            0 <= i < s.len() ==> s[i].1.location != Some(loc)),
    decreases s.len(),
{
    if s.len() > 0 {
        lemma_find_owner_none(s.drop_first(), loc);
        if find_owner(s, loc) is None {
            assert forall|i: int| 0 <= i < s.len() implies s[i].1.location != Some(loc) by {
                if i > 0 {
                    assert(s.drop_first()[i - 1] == s[i]);
                    assert(s.drop_first()[i - 1].1.location != Some(loc));
                }
            }
        } else if forall|i: int| 0 <= i < s.len() ==> s[i].1.location != Some(loc) {
            assert(s[0].1.location != Some(loc));
            assert forall|j: int| 0 <= j < s.drop_first().len() implies s.drop_first()[j].1.location
                != Some(loc) by {
                assert(s.drop_first()[j] == s[j + 1]);
                assert(s[j + 1].1.location != Some(loc));
            }
        }
    }
}

/// A hit of `find_meta` names an actual entry.
pub proof fn lemma_find_meta_some(s: Seq<(CurrencyId, AssetMetadata)>, id: CurrencyId)
    requires
        find_meta(s, id) is Some,
    ensures
        exists|i: int|
            0 <= i < s.len() && s[i].0 == id && s[i].1 == find_meta(s, id)->Some_0,
    decreases s.len(),
{
    if s[0].0 == id {
        assert(s[0].0 == id && s[0].1 == find_meta(s, id)->Some_0);
    } else {
        lemma_find_meta_some(s.drop_first(), id);
        let j = choose|j: int|
            0 <= j < s.drop_first().len() && s.drop_first()[j].0 == id && s.drop_first()[j].1
                == find_meta(s.drop_first(), id)->Some_0;
        assert(s[j + 1].0 == id && s[j + 1].1 == find_meta(s, id)->Some_0);
    }
}

/// A hit of `find_owner` names an actual entry.
pub proof fn lemma_find_owner_some(s: Seq<(CurrencyId, AssetMetadata)>, loc: Location)
    requires
        find_owner(s, loc) is Some,
    ensures
        exists|i: int|
            0 <= i < s.len() && s[i].0 == find_owner(s, loc)->Some_0 && s[i].1.location == Some(
                loc,
            ),
    decreases s.len(),
{
    if s[0].1.location == Some(loc) {
        assert(s[0].0 == find_owner(s, loc)->Some_0 && s[0].1.location == Some(loc));
    } else {
        lemma_find_owner_some(s.drop_first(), loc);
        let j = choose|j: int|
            0 <= j < s.drop_first().len() && s.drop_first()[j].0 == find_owner(
                s.drop_first(),
                loc,
            )->Some_0 && s.drop_first()[j].1.location == Some(loc);
        assert(s[j + 1].0 == find_owner(s, loc)->Some_0 && s[j + 1].1.location == Some(loc));
    }
}

/// With pairwise-distinct ids, `find_meta` returns the entry at any index.
pub proof fn lemma_find_meta_at(s: Seq<(CurrencyId, AssetMetadata)>, i: int)
    requires
        0 <= i < s.len(),
        forall|p: int, q: int| 0 <= p < q < s.len() ==> s[p].0 != s[q].0,
    ensures
        find_meta(s, s[i].0) == Some(s[i].1),
    decreases s.len(),
{
    if i > 0 {
        assert(s[0].0 != s[i].0);
        assert(forall|p: int| 0 <= p < s.drop_first().len() ==> s.drop_first()[p] == s[p + 1]);
        lemma_find_meta_at(s.drop_first(), i - 1);
    }
}

/// With pairwise-distinct locations, `find_owner` returns the owner at any
/// index that carries a location.
pub proof fn lemma_find_owner_at(s: Seq<(CurrencyId, AssetMetadata)>, i: int)
    requires
        0 <= i < s.len(),
        s[i].1.location is Some,
        forall|p: int, q: int|
            0 <= p < q < s.len() && s[p].1.location is Some ==> s[p].1.location != s[q].1.location,
    ensures
        find_owner(s, s[i].1.location->Some_0) == Some(s[i].0),
    decreases s.len(),
{
    if i > 0 {
        assert(s[0].1.location != Some(s[i].1.location->Some_0)) by {
            if s[0].1.location == Some(s[i].1.location->Some_0) {
                assert(s[0].1.location is Some);
                assert(s[0].1.location != s[i].1.location);
            }
        }
        assert(forall|p: int| 0 <= p < s.drop_first().len() ==> s.drop_first()[p] == s[p + 1]);
        lemma_find_owner_at(s.drop_first(), i - 1);
    }
}

/// Per-chain store of asset metadata with a derived id <-> location bijection
/// over the entries that carry a location.
pub struct Registry {
    entries: Vec<(CurrencyId, AssetMetadata)>,
}

impl Registry {
    /// The registered entries, oldest first.
    pub closed spec fn entries_seq(self) -> Seq<(CurrencyId, AssetMetadata)> {
        self.entries@
    }

    /// Ids are pairwise distinct and no two entries own the same location.
    pub open spec fn wf(self) -> bool {
        let s = self.entries_seq();
        &&& (forall|i: int, j: int| 0 <= i < j < s.len() ==> s[i].0 != s[j].0)
        &&& (forall|i: int, j: int|
            0 <= i < j < s.len() && s[i].1.location is Some ==> s[i].1.location
                != s[j].1.location)
    }

    /// Metadata registered under `id`.
    pub open spec fn spec_metadata_of(self, id: CurrencyId) -> Option<AssetMetadata> {
        find_meta(self.entries_seq(), id)
    }

    /// Canonical location of `id`: the one its metadata carries, if any.
    pub open spec fn spec_location_of(self, id: CurrencyId) -> Option<Location> {
        match find_meta(self.entries_seq(), id) {
            Some(m) => m.location,
            None => None,
        }
    }

    /// Id owning `loc`.
    pub open spec fn spec_id_of(self, loc: Location) -> Option<CurrencyId> {
        find_owner(self.entries_seq(), loc)
    }

    /// An empty registry.
    pub fn new() -> (r: Registry)
        ensures
            r.wf(),
            r.entries_seq() =~= Seq::<(CurrencyId, AssetMetadata)>::empty(),
    {
        Registry { entries: Vec::new() }
    }

    /// Index of the entry registered under `id`, if any.
    fn position_of_id(&self, id: CurrencyId) -> (r: Option<usize>)
        ensures
            match r {
                Some(i) => i < self.entries_seq().len() && self.entries_seq()[i as int].0 == id
                    && self.spec_metadata_of(id) == Some(self.entries_seq()[i as int].1),
                None => self.spec_metadata_of(id) is None,
            },
    {
        let s = Ghost(self.entries@);
        let n = self.entries.len();
        let mut i: usize = 0;
        proof {
            assert(s@.skip(0) =~= s@);
        }
        while i < n
            invariant
                n == s@.len(),
                s@ == self.entries@,
                0 <= i <= n,
                find_meta(s@, id) == find_meta(s@.skip(i as int), id),
            decreases n - i,
        {
            if self.entries[i].0 == id {
                proof {
                    assert(s@.skip(i as int)[0] == s@[i as int]);
                }
                return Some(i);
            }
            proof {
                assert(s@.skip(i as int)[0] == s@[i as int]);
                assert(s@.skip(i as int).drop_first() =~= s@.skip(i as int + 1));
            }
            i += 1;
        }
        proof {
            assert(s@.skip(n as int) =~= Seq::<(CurrencyId, AssetMetadata)>::empty());
        }
        None
    }

    /// Index of the entry owning `loc`, if any.
    fn position_of_location(&self, loc: &Location) -> (r: Option<usize>)
        ensures
            match r {
                Some(i) => i < self.entries_seq().len() && self.entries_seq()[i as int].1.location
                    == Some(*loc) && self.spec_id_of(*loc) == Some(
                    self.entries_seq()[i as int].0,
                ),
                None => self.spec_id_of(*loc) is None,
            },
    {
        let s = Ghost(self.entries@);
        let n = self.entries.len();
        let mut i: usize = 0;
        proof {
            assert(s@.skip(0) =~= s@);
        }
        while i < n
            invariant
                n == s@.len(),
                s@ == self.entries@,
                0 <= i <= n,
                find_owner(s@, *loc) == find_owner(s@.skip(i as int), *loc),
            decreases n - i,
        {
            let hit = match &self.entries[i].1.location {
                Some(l) => *l == *loc,
                None => false,
            };
            if hit {
                proof {
                    assert(s@.skip(i as int)[0] == s@[i as int]);
                }
                return Some(i);
            }
            proof {
                assert(s@.skip(i as int)[0] == s@[i as int]);
                assert(s@.skip(i as int).drop_first() =~= s@.skip(i as int + 1));
            }
            i += 1;
        }
        proof {
            assert(s@.skip(n as int) =~= Seq::<(CurrencyId, AssetMetadata)>::empty());
        }
        None
    }

    /// Whether `id` is registered.
    pub fn contains_id(&self, id: CurrencyId) -> (r: bool)
        ensures
            r == (self.spec_metadata_of(id) is Some),
    {
        self.position_of_id(id).is_some()
    }

    /// Metadata registered under `id`, if any.
    pub fn metadata_of(&self, id: CurrencyId) -> (r: Option<&AssetMetadata>)
        ensures
            match r {
                Some(m) => self.spec_metadata_of(id) == Some(*m),
                None => self.spec_metadata_of(id) is None,
            },
    {
        match self.position_of_id(id) {
            Some(i) => Some(&self.entries[i].1),
            None => None,
        }
    }

    /// Canonical location of `id`: the one its metadata carries, if any.
    pub fn location_of(&self, id: CurrencyId) -> (r: Option<Location>)
        ensures
            r == self.spec_location_of(id),
    {
        match self.position_of_id(id) {
            Some(i) => self.entries[i].1.location,
            None => None,
        }
    }

    /// Id owning `loc`, if any.
    pub fn id_of(&self, loc: &Location) -> (r: Option<CurrencyId>)
        ensures
            r == self.spec_id_of(*loc),
    {
        match self.position_of_location(loc) {
            Some(i) => Some(self.entries[i].0),
            None => None,
        }
    }

    /// Registers `metadata` under `id`. The entry is appended whole or not at
    /// all: on an error the registry is unchanged in both mapping directions.
    pub fn register(&mut self, id: CurrencyId, metadata: AssetMetadata) -> (r: Result<
        (),
        RegistryError,
    >)
        requires
            old(self).wf(),
        ensures
            final(self).wf(),
            match r {
                Ok(_) => old(self).spec_metadata_of(id) is None
                    && (metadata.location is Some
                        ==> old(self).spec_id_of(metadata.location->Some_0) is None)
                    && final(self).entries_seq()
                        == old(self).entries_seq().push((id, metadata)),
                Err(RegistryError::DuplicateId) => old(self).spec_metadata_of(id) is Some
                    && *final(self) == *old(self),
                Err(RegistryError::ConflictingLocation) => old(self).spec_metadata_of(id) is None
                    && metadata.location is Some
                    && old(self).spec_id_of(metadata.location->Some_0) is Some
                    && *final(self) == *old(self),
            },
    {
        if self.contains_id(id) {
            return Err(RegistryError::DuplicateId);
        }
        match &metadata.location {
            Some(loc) => {
                if self.id_of(loc).is_some() {
                    return Err(RegistryError::ConflictingLocation);
                }
            },
            None => {},
        }
        proof {
            lemma_find_meta_none(self.entries@, id);
            if metadata.location is Some {
                lemma_find_owner_none(self.entries@, metadata.location->Some_0);
            }
        }
        self.entries.push((id, metadata));
        Ok(())
    }
}

/// Round trip: with a well-formed registry, a registered id resolves to its
/// location and that location resolves back to the same id, in both
/// directions.
pub proof fn lemma_round_trip(reg: Registry, id: CurrencyId, loc: Location)
    requires
        reg.wf(),
    ensures
        reg.spec_location_of(id) == Some(loc) ==> reg.spec_id_of(loc) == Some(id),
        reg.spec_id_of(loc) == Some(id) ==> reg.spec_location_of(id) == Some(loc),
{
    let s = reg.entries_seq();
    if reg.spec_location_of(id) == Some(loc) {
        lemma_find_meta_some(s, id);
        let i = choose|i: int|
            0 <= i < s.len() && s[i].0 == id && s[i].1 == find_meta(s, id)->Some_0;
        lemma_find_owner_at(s, i);
    }
    if reg.spec_id_of(loc) == Some(id) {
        lemma_find_owner_some(s, loc);
        let i = choose|i: int|
            0 <= i < s.len() && s[i].0 == find_owner(s, loc)->Some_0 && s[i].1.location == Some(
                loc,
            );
        lemma_find_meta_at(s, i);
    }
}

/// Bijection: no two registered ids ever resolve to the same location.
pub proof fn lemma_location_unique(reg: Registry, id1: CurrencyId, id2: CurrencyId, loc: Location)
    requires
        reg.wf(),
        reg.spec_location_of(id1) == Some(loc),
        reg.spec_location_of(id2) == Some(loc),
    ensures
        id1 == id2,
{
    lemma_round_trip(reg, id1, loc);
    lemma_round_trip(reg, id2, loc);
}

} // verus!
