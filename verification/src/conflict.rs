//! Conflict detection between commands, decided by their declared key-sets.

use crate::command::{Command, CommandView};
use vstd::prelude::*;

verus! {

/// Whether some key occurs in both key-sets.
pub open spec fn keys_intersect(a: Seq<u64>, b: Seq<u64>) -> bool {
    exists|k: u64| a.contains(k) && b.contains(k)
}

/// Two commands commute when each declares at least one key and either no key
/// is shared or neither command writes. A command with an empty key-set
/// commutes with nothing.
pub open spec fn commutes(a: CommandView, b: CommandView) -> bool {
    &&& a.keys.len() > 0
    &&& b.keys.len() > 0
    &&& (!keys_intersect(a.keys, b.keys) || (a.op.is_read_only() && b.op.is_read_only()))
}

/// Two commands conflict when they do not commute: they must be strictly
/// ordered.
pub open spec fn conflicts(a: CommandView, b: CommandView) -> bool {
    !commutes(a, b)
}

/// Whether `command` conflicts with at least one command of `in_flight`.
pub open spec fn conflicts_with_any(command: CommandView, in_flight: Seq<CommandView>) -> bool {
    exists|i: int| 0 <= i < in_flight.len() && conflicts(command, #[trigger] in_flight[i])
}

/// The detector's answer.
#[derive(Clone, Copy, Debug, PartialEq, Eq, Structural)]
pub enum Verdict {
    /// The command may execute in either order relative to every in-flight command.
    Commute,
    /// The command must be ordered relative to some in-flight command.
    Conflict,
}

/// Whether `key` occurs in `keys`.
pub fn contains_key(keys: &Vec<u64>, key: u64) -> (found: bool)
    ensures
        found == keys@.contains(key),
{
    let mut i: usize = 0;
    while i < keys.len()
        invariant
            i <= keys.len(),
            forall|j: int| 0 <= j < i ==> keys@[j] != key,
        decreases keys.len() - i,
    {
        if keys[i] == key {
            return true;
        }
        i += 1;
    }
    false
}

/// Whether the two key-sets share a key.
pub fn keys_overlap(a: &Vec<u64>, b: &Vec<u64>) -> (overlap: bool)
    ensures
        overlap == keys_intersect(a@, b@),
{
    let mut i: usize = 0;
    while i < a.len()
        invariant
            i <= a.len(),
            forall|j: int| 0 <= j < i ==> !b@.contains(#[trigger] a@[j]),
        decreases a.len() - i,
    {
        if contains_key(b, a[i]) {
            assert(a@.contains(a@[i as int]));
            return true;
        }
        i += 1;
    }
    false
}

/// Whether two commands commute.
pub fn commute(a: &Command, b: &Command) -> (r: bool)
    ensures
        r == commutes(a@, b@),
{
    if a.keys().len() == 0 || b.keys().len() == 0 {
        return false;
    }
    if a.is_read_only() && b.is_read_only() {
        return true;
    }
    !keys_overlap(a.keys(), b.keys())
}

/// Decides whether `new_command` commutes with everything in flight.
///
/// The answer depends on the declared key-sets and on whether each command
/// writes, never on payloads.
pub fn detect(new_command: &Command, in_flight: &Vec<Command>) -> (verdict: Verdict)
    ensures
        verdict == Verdict::Conflict <==> conflicts_with_any(
            new_command@,
            in_flight@.map_values(|c: Command| c@),
        ),
        verdict == Verdict::Commute <==> forall|i: int|
            0 <= i < in_flight.len() ==> commutes(new_command@, #[trigger] in_flight[i]@),
{
    let ghost views = in_flight@.map_values(|c: Command| c@);
    let mut i: usize = 0;
    while i < in_flight.len()
        invariant
            i <= in_flight.len(),
            views == in_flight@.map_values(|c: Command| c@),
            forall|j: int| 0 <= j < i ==> commutes(new_command@, #[trigger] in_flight[j]@),
        decreases in_flight.len() - i,
    {
        if !commute(new_command, &in_flight[i]) {
            assert(conflicts(new_command@, views[i as int]));
            return Verdict::Conflict;
        }
        i += 1;
    }
    assert forall|j: int| 0 <= j < views.len() implies !conflicts(
        new_command@,
        #[trigger] views[j],
    ) by {
        assert(commutes(new_command@, in_flight[j]@));
    }
    Verdict::Commute
}

/// Commutation does not depend on the order of the pair.
pub proof fn lemma_commutes_symmetric(a: CommandView, b: CommandView)
    ensures
        commutes(a, b) == commutes(b, a),
{
    assert(keys_intersect(a.keys, b.keys) == keys_intersect(b.keys, a.keys));
}

/// A command with an empty key-set conflicts with every command.
pub proof fn lemma_empty_key_set_conflicts(a: CommandView, b: CommandView)
    requires
        a.keys.len() == 0,
    ensures
        conflicts(a, b),
        conflicts(b, a),
{
}

/// Two commands conflict exactly when one of them declares no key, or they
/// share a key and at least one of them writes.
pub proof fn lemma_conflict_characterisation(a: CommandView, b: CommandView)
    ensures
        conflicts(a, b) <==> (a.keys.len() == 0 || b.keys.len() == 0 || (keys_intersect(
            a.keys,
            b.keys,
        ) && !(a.op.is_read_only() && b.op.is_read_only()))),
{
}

} // verus!
