//! Reclamation in a domain per map, in bounded batches.
use vstd::prelude::*;
use crate::concurrent::smr::Smr;

verus! {

/// A reclamation domain.
#[verifier::external_type_specification]
#[verifier::external_body]
pub struct ExDomain(::ps_reclaim::Domain);

/// A pin in a reclamation domain.
#[verifier::external_type_specification]
#[verifier::external_body]
pub struct ExPin<'a>(::ps_reclaim::Guard<'a>);

/// Number of retirements from which on the domain is advanced.
pub const RECLAIM_BATCH: usize = 256;

/// Calls [`::ps_reclaim::Domain::new`]. Nothing is claimed of the domain.
#[verifier::external_body]
fn new_domain() -> (domain: ::ps_reclaim::Domain) {
    ::ps_reclaim::Domain::new()
}

/// Calls [`::ps_reclaim::Domain::advance`], which drops what no reader can
/// reach any more and counts it. How much that is depends on the readers, and
/// nothing is claimed of it.
#[verifier::external_body]
pub(crate) fn advance(domain: &::ps_reclaim::Domain) -> (reclaimed: usize) {
    domain.advance()
}

/// The domain that a guard is pinned in.
pub uninterp spec fn pinned(guard: ::ps_reclaim::Guard<'_>) -> ::ps_reclaim::Domain;

/// Calls [`::ps_reclaim::Domain::pin`], which marks the current thread as a
/// reader. Claims that the guard is pinned in the domain.
#[verifier::external_body]
fn pin<'a>(domain: &'a ::ps_reclaim::Domain) -> (guard: ::ps_reclaim::Guard<'a>)
    ensures
        pinned(guard) == *domain,
{
    domain.pin()
}

/// Calls [`::ps_reclaim::Domain::retire`], which drops the value once every
/// reader that is pinned now has unpinned. Nothing is claimed.
#[verifier::external_body]
pub(crate) fn retire_in<V: Send + 'static>(domain: &::ps_reclaim::Domain, value: V) {
    domain.retire(move || drop(value))
}

/// The value was handed to the domain, which drops it once every reader that
/// was pinned then has unpinned.
pub closed spec fn deferred<V: Send + 'static>(domain: ::ps_reclaim::Domain, value: V) -> bool {
    call_ensures(retire_in::<V>, (&domain, value), ())
}

/// The domain was advanced, and reclaimed that many.
pub closed spec fn advances(domain: ::ps_reclaim::Domain, reclaimed: usize) -> bool {
    call_ensures(advance, (&domain,), reclaimed)
}

/// Per-map [`::ps_reclaim::Domain`] backend for safe memory reclamation.
///
/// Retirements are advanced in bounded batches. Once the batch threshold is
/// reached, later operations retry the advance before pinning until the
/// backlog falls below it.
pub struct PsReclaim {
    pub domain: ::ps_reclaim::Domain,
    /// Number of retirements that were not reclaimed yet.
    pub pending: usize,
}

/// Whether the backlog calls for an advance.
pub fn is_due(pending: usize) -> (due: bool)
    ensures
        due == (pending >= RECLAIM_BATCH),
{
    pending >= RECLAIM_BATCH
}

/// Backlog after an advance reclaimed that many.
pub fn settle(pending: usize, reclaimed: usize) -> (left: usize)
    ensures
        left == pending.wrapping_sub(reclaimed),
{
    if reclaimed != 0 {
        pending.wrapping_sub(reclaimed)
    } else {
        pending
    }
}

/// Backlog after an advance, which takes place only if the backlog calls for
/// it, and then reclaims that many.
pub open spec fn advanced(pending: usize, reclaimed: usize) -> usize {
    if pending < RECLAIM_BATCH {
        pending
    } else {
        pending.wrapping_sub(reclaimed)
    }
}

/// Backlog before and after a chance to advance: from the threshold on the
/// domain is advanced, and the backlog loses as many as that reclaims.
pub open spec fn tended(domain: ::ps_reclaim::Domain, before: usize, after: usize) -> bool {
    if before < RECLAIM_BATCH {
        after == before
    } else {
        exists|reclaimed: usize| #[trigger]
            advances(domain, reclaimed) && after == advanced(before, reclaimed)
    }
}

/// Advance the domain if the backlog calls for it.
fn advance_if_needed(domain: &::ps_reclaim::Domain, pending: &mut usize)
    ensures
        exists|reclaimed: usize| *final(pending) == #[trigger] advanced(*old(pending), reclaimed),
        tended(*domain, *old(pending), *final(pending)),
{
    if !is_due(*pending) {
        assert(advanced(*pending, 0) == *pending);
        return ;
    }
    let reclaimed: usize = advance(domain);
    assert(advances(*domain, reclaimed));
    assert(advanced(*pending, reclaimed) == pending.wrapping_sub(reclaimed));
    *pending = settle(*pending, reclaimed);
}

impl Default for PsReclaim {
    fn default() -> (smr: Self)
        ensures
            smr.pending == 0,
    {
        PsReclaim { domain: new_domain(), pending: 0 }
    }
}

impl PsReclaim {
    /// Size of the backlog.
    pub fn garbage(&self) -> (garbage: u32)
        ensures
            garbage == (if self.pending <= u32::MAX {
                self.pending as u32
            } else {
                u32::MAX
            }),
    {
        if self.pending <= u32::MAX as usize {
            self.pending as u32
        } else {
            u32::MAX
        }
    }

    /// Advance the domain if the backlog calls for it, and protect everything
    /// that is read while the guard lives.
    pub fn guard<'a>(&'a mut self) -> (guard: PsReclaimGuard<'a>)
        ensures
            !guard.retired,
            guard.domain == old(self).domain,
            guard.pin matches Some(pin) && pinned(pin) == old(self).domain,
            *final(self) == (PsReclaim {
                domain: old(self).domain,
                pending: *final(guard.pending),
            }),
            exists|reclaimed: usize| *guard.pending == #[trigger] advanced(
                old(self).pending,
                reclaimed,
            ),
            tended(old(self).domain, old(self).pending, *guard.pending),
    {
        advance_if_needed(&self.domain, &mut self.pending);
        let domain: &'a ::ps_reclaim::Domain = &self.domain;
        PsReclaimGuard {
            domain,
            pending: &mut self.pending,
            pin: Some(pin(domain)),
            retired: false,
        }
    }
}

/// Guard backed by one pin in the map's reclamation domain.
pub struct PsReclaimGuard<'a> {
    pub domain: &'a ::ps_reclaim::Domain,
    pub pending: &'a mut usize,
    pub pin: Option<::ps_reclaim::Guard<'a>>,
    pub retired: bool,
}

impl<'a> PsReclaimGuard<'a> {
    /// Hand a value to the domain.
    pub fn retire<V: Send + 'static>(self, value: V) -> (guard: Self)
        ensures
            *guard.pending == old(self.pending).wrapping_add(1),
            *final(guard.pending) == *final(self.pending),
            guard.domain == self.domain,
            guard.pin == self.pin,
            guard.retired,
            deferred(*self.domain, value),
    {
        let PsReclaimGuard { domain, pending, pin, retired: _ } = self;
        retire_in(domain, value);
        *pending = pending.wrapping_add(1);
        PsReclaimGuard { domain, pending, pin, retired: true }
    }

    /// Release the pin, and advance the domain if something was retired and
    /// the backlog calls for it.
    pub fn close(self)
        ensures
            !self.retired ==> *final(self.pending) == *old(self.pending),
            self.retired ==> exists|reclaimed: usize| *final(self.pending) == #[trigger] advanced(
                *old(self.pending),
                reclaimed,
            ),
            self.retired ==> tended(*self.domain, *old(self.pending), *final(self.pending)),
    {
        let PsReclaimGuard { domain, pending, pin, retired } = self;
        release(pin);
        if retired {
            advance_if_needed(domain, pending);
        }
    }
}

/// Drop a pin.
fn release<'a>(pin: Option<::ps_reclaim::Guard<'a>>) {
    let _ = pin;
}

impl<V: Send + 'static> Smr<V> for PsReclaim {
    /// The backlog grows by one, less what the advances before and after
    /// reclaim.
    open spec fn retires(before: Self, after: Self) -> bool {
        &&& after.domain == before.domain
        &&& exists|first: usize, second: usize|
            after.pending == #[trigger] advanced(
                advanced(before.pending, first).wrapping_add(1),
                second,
            )
        &&& exists|pending: usize| #[trigger]
            tended(before.domain, before.pending, pending) && tended(
                before.domain,
                pending.wrapping_add(1),
                after.pending,
            )
    }

    /// The domain drops the value once every reader that is pinned then has
    /// unpinned.
    open spec fn handed(before: Self, value: V) -> bool {
        deferred(before.domain, value)
    }

    /// Hand the value to the domain, with an advance before and after if the
    /// backlog calls for it.
    fn retire(&mut self, value: V)
        ensures
            old(self).pending + 1 < RECLAIM_BATCH ==> final(self).pending == old(self).pending + 1,
    {
        let guard = self.guard();
        guard.retire(value).close();
    }

    fn garbage(&self) -> (garbage: u32)
        ensures
            garbage == (if self.pending <= u32::MAX {
                self.pending as u32
            } else {
                u32::MAX
            }),
    {
        PsReclaim::garbage(self)
    }
}

/// A value that is retired is handed to the domain of the map. The backlog
/// grows by one, and from the threshold on only as far as an advance of that
/// domain does not reclaim.
pub(crate) proof fn law_deferred<V: Send + 'static>(before: PsReclaim, after: PsReclaim, value: V)
    requires
        <PsReclaim as Smr<V>>::handed(before, value),
        <PsReclaim as Smr<V>>::retires(before, after),
    ensures
        call_ensures(retire_in::<V>, (&before.domain, value), ()),
        before.pending + 1 < RECLAIM_BATCH ==> after.pending == before.pending + 1,
        before.pending + 1 == RECLAIM_BATCH ==> exists|reclaimed: usize| #[trigger]
            call_ensures(advance, (&before.domain,), reclaimed) && after.pending
                == RECLAIM_BATCH.wrapping_sub(reclaimed),
        before.pending >= RECLAIM_BATCH ==> exists|reclaimed: usize| #[trigger]
            call_ensures(advance, (&before.domain,), reclaimed) && tended(
                before.domain,
                before.pending.wrapping_sub(reclaimed).wrapping_add(1),
                after.pending,
            ),
        after.domain == before.domain,
{
    let pending = choose|pending: usize| #[trigger]
        tended(before.domain, before.pending, pending) && tended(
            before.domain,
            pending.wrapping_add(1),
            after.pending,
        );
    if before.pending >= RECLAIM_BATCH {
        let reclaimed = choose|reclaimed: usize| #[trigger]
            advances(before.domain, reclaimed) && pending == advanced(before.pending, reclaimed);
        assert(call_ensures(advance, (&before.domain,), reclaimed));
    } else if before.pending + 1 >= RECLAIM_BATCH {
        let reclaimed = choose|reclaimed: usize| #[trigger]
            advances(before.domain, reclaimed) && after.pending == advanced(
                pending.wrapping_add(1),
                reclaimed,
            );
        assert(call_ensures(advance, (&before.domain,), reclaimed));
    }
}

/// An advance takes place from the threshold on, and the backlog loses as many as
/// it reclaims.
pub proof fn law_advanced(pending: usize, reclaimed: usize)
    ensures
        pending < 256 ==> advanced(pending, reclaimed) == pending,
        256 <= pending && reclaimed <= pending ==> advanced(pending, reclaimed) == pending
            - reclaimed,
{
}

} // verus!
