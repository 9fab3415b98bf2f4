//! Where the current phase of an architecture is looked up.

use crate::address::{
    law_dotted_tells_addresses_apart, separable, AddressView, ResourceAddress,
};
use crate::entries::{
    copy_map, empty_map, entries_of, get_entry, insert_entry, law_lookup_after_put,
    law_lookup_finds_entries, lookup, put,
};
use crate::text::converts_to;
use indexmap::IndexMap;
use vstd::prelude::*;

verus! {

/// The text of a phase, if there is one.
pub open spec fn phase_text(phase: Option<String>) -> Option<Seq<char>> {
    match phase {
        Some(text) => Some(text@),
        None => None,
    }
}

/// Read-only lookup of the current phase of any address.
pub trait PhaseRegistry {
    /// Whether this registry may answer `phase` when it is asked for `address`.
    /// A registry over live state may answer anything, which is the default.
    open spec fn reports(&self, address: AddressView, phase: Option<Seq<char>>) -> bool {
        true
    }

    /// The current phase of `address`, if it is known.
    fn phase_of(&self, address: &ResourceAddress) -> (phase: Option<String>)
        ensures
            self.reports(address@, phase_text(phase)),
    ;
}

/// A registry in memory, for tests and for what fits into one process.
#[derive(Debug)]
pub struct InMemoryPhaseRegistry {
    /// The phases by the dotted forms of the addresses.
    pub phases: IndexMap<String, String>,
}

impl View for InMemoryPhaseRegistry {
    type V = Seq<(Seq<char>, Seq<char>)>;

    open spec fn view(&self) -> Seq<(Seq<char>, Seq<char>)> {
        entries_of(self.phases)
    }
}

impl Clone for InMemoryPhaseRegistry {
    fn clone(&self) -> (copy: Self)
        ensures
            copy@ == self@,
    {
        InMemoryPhaseRegistry { phases: copy_map(&self.phases) }
    }
}

impl Default for InMemoryPhaseRegistry {
    fn default() -> (registry: Self)
        ensures
            registry@ == Seq::<(Seq<char>, Seq<char>)>::empty(),
    {
        InMemoryPhaseRegistry { phases: empty_map() }
    }
}

impl InMemoryPhaseRegistry {
    /// The phase on record for `address`.
    pub open spec fn phase_at(self, address: AddressView) -> Option<Seq<char>> {
        lookup(self@, address.dotted())
    }

    /// A registry without any phase.
    #[must_use]
    pub fn new() -> (registry: Self)
        ensures
            registry@ == Seq::<(Seq<char>, Seq<char>)>::empty(),
    {
        Self::default()
    }

    /// Puts the phase of `address` on record, in place of an earlier one.
    pub fn insert<P: Into<String>>(&mut self, address: &ResourceAddress, phase: P)
        ensures
            exists|text: Seq<char>|
                #[trigger] converts_to(phase, text) && final(self)@ == put(
                    old(self)@,
                    address@.dotted(),
                    text,
                ),
    {
        let text: String = phase.into();
        assert(converts_to(phase, text@));
        insert_entry(&mut self.phases, address.dotted(), text);
    }

    /// This registry with the phase of `address` put on record.
    #[must_use]
    pub fn with<P: Into<String>>(self, address: &ResourceAddress, phase: P) -> (registry: Self)
        ensures
            exists|text: Seq<char>|
                #[trigger] converts_to(phase, text) && registry@ == put(
                    self@,
                    address@.dotted(),
                    text,
                ),
    {
        let mut registry: Self = self;
        registry.insert(address, phase);
        registry
    }
}

impl PhaseRegistry for InMemoryPhaseRegistry {
    /// The only answer is the phase on record.
    open spec fn reports(&self, address: AddressView, phase: Option<Seq<char>>) -> bool {
        phase == self.phase_at(address)
    }

    fn phase_of(&self, address: &ResourceAddress) -> (phase: Option<String>)
        ensures
            match phase {
                Some(text) => lookup(entries_of(self.phases), address@.dotted()) == Some(text@),
                None => lookup(entries_of(self.phases), address@.dotted()) is None,
            },
    {
        let key: String = address.dotted();
        match get_entry(&self.phases, key.as_str()) {
            Some(phase) => Some(phase.clone()),
            None => None,
        }
    }
}

/// A registry without any phase knows no address.
pub proof fn law_empty_registry_knows_nothing(
    registry: InMemoryPhaseRegistry,
    address: AddressView,
)
    requires
        registry@.len() == 0,
    ensures
        registry.phase_at(address) is None,
{
}

/// The phase of an address is the one that was last put on record under its
/// dotted form, and putting one on record leaves the phases under other dotted
/// forms alone. As long as no cluster and no namespace holds a `/`, those are
/// the phases of all other addresses.
pub proof fn law_registry_answers_what_was_inserted(
    before: InMemoryPhaseRegistry,
    after: InMemoryPhaseRegistry,
    address: AddressView,
    phase: Seq<char>,
    other: AddressView,
)
    requires
        after@ == put(before@, address.dotted(), phase),
    ensures
        after.phase_at(address) == Some(phase),
        other.dotted() == address.dotted() ==> after.phase_at(other) == Some(phase),
        other.dotted() != address.dotted() ==> after.phase_at(other) == before.phase_at(other),
        separable(address) && separable(other) && other != address ==> after.phase_at(other)
            == before.phase_at(other),
{
    law_lookup_after_put(before@, address.dotted(), phase, other.dotted());
    if separable(address) && separable(other) {
        law_dotted_tells_addresses_apart(address, other);
    }
}

/// The text of a phase is that of the string, and there is none without one.
pub proof fn law_phase_text_is_the_string(text: String)
    ensures
        phase_text(Some(text)) == Some(text@),
        phase_text(None) is None,
{
}

/// A registry in memory has one answer for an address: what its map holds under
/// the dotted form of that very address.
pub proof fn law_memory_answers_from_the_map(
    registry: InMemoryPhaseRegistry,
    address: AddressView,
    phase: Option<Seq<char>>,
)
    ensures
        registry.reports(address, phase) <==> phase == lookup(
            entries_of(registry.phases),
            address.dotted(),
        ),
        registry.phase_at(address) == lookup(entries_of(registry.phases), address.dotted()),
        registry@ == entries_of(registry.phases),
{
}

/// An address is known in memory exactly when some entry has its dotted form as
/// the key, and the phase reported for it stands in such an entry.
pub proof fn law_memory_knows_what_has_an_entry(
    registry: InMemoryPhaseRegistry,
    address: AddressView,
    phase: Option<Seq<char>>,
)
    requires
        registry.reports(address, phase),
    ensures
        phase is None <==> forall|i: int|
            0 <= i < entries_of(registry.phases).len() ==> (#[trigger] entries_of(
                registry.phases,
            )[i]).0 != address.dotted(),
        phase is Some ==> entries_of(registry.phases).contains((address.dotted(), phase->0)),
{
    law_lookup_finds_entries(entries_of(registry.phases), address.dotted());
}

} // verus!
