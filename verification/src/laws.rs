//! Cross-operation laws of the registry, stated over the same abstractions
//! its operation contracts use.

use crate::limit::count_in;
use crate::limit::counts_after_decrease;
use crate::limit::counts_after_increase;
use crate::limit::lemma_increase_then_decrease;
use crate::rooms::Room;
use crate::tag::Tagged;
use vstd::prelude::*;

verus! {

/// Law: creating a room and immediately deleting it restores the registry's
/// observable state exactly — the record map regains its old value, and so
/// does the counts table. `m` and `c` are the record map and counts table
/// before the create; `id` is the fresh identifier the create used, `rec`
/// the record it stored, and `i` the registrant. The hypotheses are exactly
/// what holds at a successful create: the identifier was fresh, no zero
/// count is stored, and the registrant's count had room to grow.
pub proof fn lemma_create_then_delete_restores(
    m: Map<u128, Tagged<Room>>,
    c: Map<u128, u16>,
    id: u128,
    rec: Tagged<Room>,
    i: u128,
)
    requires
        !m.contains_key(id),
        forall|j: u128| #[trigger] c.contains_key(j) ==> c[j] >= 1,
        count_in(c, i) < u16::MAX,
    ensures
        m.insert(id, rec).remove(id) == m,
        counts_after_decrease(counts_after_increase(c, i), i, 1) == c,
{
    assert(m.insert(id, rec).remove(id) =~= m);
    lemma_increase_then_decrease(c, i);
}

} // verus!
