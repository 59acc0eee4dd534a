//! Reloading plugins in place, with a way back.
//!
//! The new artifact is registered first, then every entry bound to the plugin is applied again.
//! Where one of them fails, the old artifact is registered again, and all entries are applied once
//! more.

use crate::entry::lemma_entry_view;
use crate::forest::{entry_at, walk, EntryView};
use crate::options::text_option;
use crate::text::{concat, concat3, same_text, texts};
use crate::tree::EntryTree;
use vstd::prelude::*;

verus! {

/// The result of a list of reloads.
pub struct ReloadReport {
    /// Plugins that were reloaded.
    pub reloaded: Vec<String>,
    /// Plugins that failed and were taken back.
    pub rolled_back: Vec<String>,
}

/// The phases of a reload.
#[derive(PartialEq, Eq, Structural, Clone, Copy)]
pub enum Phase {
    /// The new artifact is registered.
    Register,
    /// The entries are applied again.
    Apply,
    /// The old artifact is registered again.
    Restore,
    /// The entries are applied again with the old artifact.
    Reapply,
    /// The plugin was reloaded.
    Reloaded,
    /// The plugin was taken back.
    RolledBack,
}

/// The reload of one plugin: how many entries are bound to it, whether there is an old artifact,
/// and how far it is.
#[derive(PartialEq, Eq, Structural, Clone, Copy)]
pub struct Reload {
    pub entries: usize,
    pub has_previous: bool,
    pub phase: Phase,
    /// The number of entries that were applied in this phase.
    pub applied: usize,
    /// Whether one of the entries failed.
    pub failed: bool,
}

/// What a reload asks for.
#[derive(PartialEq, Eq, Structural, Clone, Copy)]
pub enum ReloadAction {
    /// Register the new artifact.
    Register,
    /// Apply the entry of this number again.
    Apply(usize),
    /// Register the old artifact.
    Restore,
    /// Nothing more.
    Done,
}

/// What a reload asks for.
pub open spec fn asked(reload: Reload) -> ReloadAction {
    match reload.phase {
        Phase::Register => ReloadAction::Register,
        Phase::Apply => ReloadAction::Apply(reload.applied),
        Phase::Restore => ReloadAction::Restore,
        Phase::Reapply => ReloadAction::Apply(reload.applied),
        _ => ReloadAction::Done,
    }
}

/// The reload after what it asked for was done, where `ok` says whether it worked.
pub open spec fn advanced(reload: Reload, ok: bool) -> Reload {
    match reload.phase {
        Phase::Register => if !ok {
            Reload { phase: Phase::RolledBack, ..reload }
        } else if reload.entries == 0 {
            Reload { phase: Phase::Reloaded, ..reload }
        } else {
            Reload { phase: Phase::Apply, ..reload }
        },
        Phase::Apply => {
            let failed = reload.failed || !ok;
            if reload.applied + 1 < reload.entries {
                Reload { applied: (reload.applied + 1) as usize, failed, ..reload }
            } else if !failed {
                Reload { phase: Phase::Reloaded, ..reload }
            } else if reload.has_previous {
                Reload { phase: Phase::Restore, applied: 0, failed, ..reload }
            } else {
                Reload { phase: Phase::Reapply, applied: 0, failed, ..reload }
            }
        },
        Phase::Restore => Reload { phase: Phase::Reapply, ..reload },
        Phase::Reapply => if reload.applied + 1 < reload.entries {
            Reload { applied: (reload.applied + 1) as usize, ..reload }
        } else {
            Reload { phase: Phase::RolledBack, ..reload }
        },
        _ => reload,
    }
}

/// The reload of a plugin after the outcomes listed.
pub open spec fn driven(entries: usize, has_previous: bool, outcomes: Seq<bool>) -> Reload
    decreases outcomes.len(),
{
    if outcomes.len() == 0 {
        Reload { entries, has_previous, phase: Phase::Register, applied: 0, failed: false }
    } else {
        advanced(driven(entries, has_previous, outcomes.drop_last()), outcomes.last())
    }
}

impl Reload {
    /// The reload of a plugin begins.
    pub fn start(entries: usize, has_previous: bool) -> (r: Reload)
        ensures
            r == driven(entries, has_previous, Seq::empty()),
    {
        Reload { entries, has_previous, phase: Phase::Register, applied: 0, failed: false }
    }

    /// What the reload asks for.
    pub fn action(&self) -> (r: ReloadAction)
        ensures
            r == asked(*self),
    {
        match self.phase {
            Phase::Register => ReloadAction::Register,
            Phase::Apply => ReloadAction::Apply(self.applied),
            Phase::Restore => ReloadAction::Restore,
            Phase::Reapply => ReloadAction::Apply(self.applied),
            Phase::Reloaded => ReloadAction::Done,
            Phase::RolledBack => ReloadAction::Done,
        }
    }

    /// Goes on after what the phase asks for was done.
    pub fn advance(self, ok: bool) -> (r: Reload)
        ensures
            r == advanced(self, ok),
    {
        match self.phase {
            Phase::Register => {
                if !ok {
                    Reload { phase: Phase::RolledBack, ..self }
                } else if self.entries == 0 {
                    Reload { phase: Phase::Reloaded, ..self }
                } else {
                    Reload { phase: Phase::Apply, ..self }
                }
            },
            Phase::Apply => {
                let failed = self.failed || !ok;
                if self.entries > 0 && self.applied < self.entries - 1 {
                    Reload { applied: self.applied + 1, failed, ..self }
                } else if !failed {
                    Reload { phase: Phase::Reloaded, ..self }
                } else if self.has_previous {
                    Reload { phase: Phase::Restore, applied: 0, failed, ..self }
                } else {
                    Reload { phase: Phase::Reapply, applied: 0, failed, ..self }
                }
            },
            Phase::Restore => Reload { phase: Phase::Reapply, ..self },
            Phase::Reapply => {
                if self.entries > 0 && self.applied < self.entries - 1 {
                    Reload { applied: self.applied + 1, ..self }
                } else {
                    Reload { phase: Phase::RolledBack, ..self }
                }
            },
            Phase::Reloaded => self,
            Phase::RolledBack => self,
        }
    }

    /// The warning to log when what the reload of the plugin `name` asked for fails with `error`.
    pub fn failure_warning(&self, name: &str, error: &str) -> (r: Option<String>)
        ensures
            text_option(r) == failure_text(self.phase, name@, error@),
    {
        match self.phase {
            Phase::Register => {
                let head = concat3("hmr: reload ", name, " failed to register: ");
                Some(concat(head.as_str(), error))
            },
            Phase::Apply => {
                let head = concat3("hmr: reload ", name, " failed: ");
                Some(concat(head.as_str(), error))
            },
            _ => None,
        }
    }

    /// The warning to log when the reload of the plugin `name` has come to its end.
    pub fn end_warning(&self, name: &str) -> (r: Option<String>)
        ensures
            text_option(r) == end_text(*self, name@),
    {
        match self.phase {
            Phase::RolledBack => {
                if self.failed {
                    Some(concat3("hmr: reload ", name, " failed; rolled back"))
                } else {
                    None
                }
            },
            _ => None,
        }
    }
}

/// The warning about a step that failed. Going back is done without one.
pub open spec fn failure_text(phase: Phase, name: Seq<char>, error: Seq<char>) -> Option<Seq<char>> {
    match phase {
        Phase::Register => Some("hmr: reload "@ + name + " failed to register: "@ + error),
        Phase::Apply => Some("hmr: reload "@ + name + " failed: "@ + error),
        _ => None,
    }
}

/// The warning about a plugin that was taken back after one of its entries failed.
pub open spec fn end_text(reload: Reload, name: Seq<char>) -> Option<Seq<char>> {
    if reload.phase is RolledBack && reload.failed {
        Some("hmr: reload "@ + name + " failed; rolled back"@)
    } else {
        None
    }
}

/// While entries are applied, all that went before worked but for failed entries, which are
/// remembered.
proof fn lemma_applying(entries: usize, has_previous: bool, outcomes: Seq<bool>)
    requires
        entries > 0,
        1 <= outcomes.len() <= entries,
        outcomes[0],
    ensures
        ({
            let reload = driven(entries, has_previous, outcomes);
            &&& reload.phase is Apply
            &&& reload.entries == entries
            &&& reload.has_previous == has_previous
            &&& reload.applied == outcomes.len() - 1
            &&& reload.failed == exists|i: int| 1 <= i < outcomes.len() && !#[trigger] outcomes[i]
        }),
    decreases outcomes.len(),
{
    let front = outcomes.drop_last();
    if outcomes.len() == 1 {
        assert(front =~= Seq::<bool>::empty());
        assert(driven(entries, has_previous, front).phase is Register);
        assert(outcomes.last() == outcomes[0]);
    } else {
        lemma_applying(entries, has_previous, front);
        let before = driven(entries, has_previous, front);
        let n = outcomes.len() as int;
        if before.failed {
            let i = choose|i: int| 1 <= i < front.len() && !#[trigger] front[i];
            assert(!outcomes[i]);
        }
        if !outcomes.last() {
            assert(!outcomes[n - 1]);
        }
        if exists|i: int| 1 <= i < outcomes.len() && !#[trigger] outcomes[i] {
            let i = choose|i: int| 1 <= i < outcomes.len() && !#[trigger] outcomes[i];
            if i < n - 1 {
                assert(!front[i]);
            }
        }
    }
}

/// A plugin that no entry is bound to is reloaded once it is registered.
pub proof fn unmounted_plugins_reload(has_previous: bool)
    ensures
        driven(0, has_previous, seq![true]).phase is Reloaded,
{
    assert(seq![true].drop_last() =~= Seq::<bool>::empty());
    assert(driven(0, has_previous, Seq::empty()).phase is Register);
}

/// A plugin whose registration fails is taken back at once, without an entry being touched.
pub proof fn failed_registration_rolls_back(entries: usize, has_previous: bool)
    ensures
        driven(entries, has_previous, seq![false]).phase is RolledBack,
{
    assert(seq![false].drop_last() =~= Seq::<bool>::empty());
    assert(driven(entries, has_previous, Seq::empty()).phase is Register);
}

/// Once it is registered and all entries were applied, a plugin is reloaded where all of them
/// worked; where one failed it goes back to the old artifact, if there is one, and to applying all
/// entries again.
pub proof fn reload_or_roll_back(entries: usize, has_previous: bool, outcomes: Seq<bool>)
    requires
        entries > 0,
        outcomes.len() == entries + 1,
        outcomes[0],
    ensures
        ({
            let reload = driven(entries, has_previous, outcomes);
            if forall|i: int| 1 <= i <= entries ==> #[trigger] outcomes[i] {
                reload.phase is Reloaded
            } else {
                reload.applied == 0 && (if has_previous {
                    reload.phase is Restore
                } else {
                    reload.phase is Reapply
                })
            }
        }),
{
    let front = outcomes.drop_last();
    lemma_applying(entries, has_previous, front);
    let before = driven(entries, has_previous, front);
    if forall|i: int| 1 <= i <= entries ==> #[trigger] outcomes[i] {
        assert forall|i: int| 1 <= i < front.len() implies #[trigger] front[i] by {
            assert(outcomes[i]);
        }
        assert(outcomes[entries as int]);
    } else {
        let i = choose|i: int| 1 <= i <= entries && !#[trigger] outcomes[i];
        if i < entries {
            assert(!front[i]);
        }
    }
}

/// A plugin that goes back applies every entry once more, and is then taken back, whether or not
/// that worked.
pub proof fn roll_back_completes(reload: Reload, outcomes: Seq<bool>)
    requires
        reload.phase is Reapply,
        reload.applied == 0,
        0 < reload.entries,
        outcomes.len() <= reload.entries,
    ensures
        ({
            let after = driven_from(reload, outcomes);
            if outcomes.len() < reload.entries {
                after.phase is Reapply && after.applied == outcomes.len() && after.entries
                    == reload.entries && asked(after) == ReloadAction::Apply(
                    outcomes.len() as usize,
                )
            } else {
                after.phase is RolledBack
            }
        }),
    decreases outcomes.len(),
{
    if outcomes.len() > 0 {
        roll_back_completes(reload, outcomes.drop_last());
    }
}

/// A reload after the outcomes listed.
pub open spec fn driven_from(reload: Reload, outcomes: Seq<bool>) -> Reload
    decreases outcomes.len(),
{
    if outcomes.len() == 0 {
        reload
    } else {
        advanced(driven_from(reload, outcomes.drop_last()), outcomes.last())
    }
}

/// A reload begins with the registration of the new artifact. Once that worked, the entries are
/// applied one after another, whether or not those before worked.
pub proof fn entries_are_applied_in_order(entries: usize, has_previous: bool, outcomes: Seq<bool>)
    requires
        outcomes.len() > 0 ==> outcomes[0] && outcomes.len() <= entries,
    ensures
        ({
            let asks = asked(driven(entries, has_previous, outcomes));
            if outcomes.len() == 0 {
                asks == ReloadAction::Register
            } else {
                asks == ReloadAction::Apply((outcomes.len() - 1) as usize)
            }
        }),
{
    if outcomes.len() > 0 {
        lemma_applying(entries, has_previous, outcomes);
    }
}

/// A plugin that goes back and has an old artifact registers it, and then applies its entries from
/// the first on, whether or not that worked. Without an old artifact it applies them at once.
pub proof fn the_old_artifact_is_restored(
    entries: usize,
    has_previous: bool,
    outcomes: Seq<bool>,
    ok: bool,
)
    requires
        entries > 0,
        outcomes.len() == entries + 1,
        outcomes[0],
        exists|i: int| 1 <= i <= entries && !#[trigger] outcomes[i],
    ensures
        ({
            let reload = driven(entries, has_previous, outcomes);
            let restored = advanced(reload, ok);
            &&& has_previous ==> asked(reload) == ReloadAction::Restore && asked(restored)
                == ReloadAction::Apply(0) && restored.phase is Reapply && restored.failed
            &&& !has_previous ==> asked(reload) == ReloadAction::Apply(0) && reload.phase is Reapply
                && reload.failed
        }),
{
    reload_or_roll_back(entries, has_previous, outcomes);
    let front = outcomes.drop_last();
    lemma_applying(entries, has_previous, front);
    let i = choose|i: int| 1 <= i <= entries && !#[trigger] outcomes[i];
    if i < entries {
        assert(!front[i]);
    } else {
        assert(!outcomes.last());
    }
}

/// A reload that has come to its end asks for nothing more, and stays as it is.
pub proof fn ended_reloads_rest(reload: Reload, ok: bool)
    requires
        reload.phase is Reloaded || reload.phase is RolledBack,
    ensures
        asked(reload) == ReloadAction::Done,
        advanced(reload, ok) == reload,
{
}

/// What is warned of: a registration and an entry that fail, but not while going back; and, at its
/// end, a reload that went back after an entry failed.
pub proof fn failures_are_warned_of(reload: Reload, name: Seq<char>, error: Seq<char>)
    ensures
        failure_text(Phase::Register, name, error) == Some(
            "hmr: reload "@ + name + " failed to register: "@ + error,
        ),
        failure_text(Phase::Apply, name, error) == Some(
            "hmr: reload "@ + name + " failed: "@ + error,
        ),
        failure_text(Phase::Restore, name, error) is None,
        failure_text(Phase::Reapply, name, error) is None,
        end_text(reload, name) == (if reload.phase is RolledBack && reload.failed {
            Some("hmr: reload "@ + name + " failed; rolled back"@)
        } else {
            None
        }),
{
}

/// How many steps a reload has left at most.
pub open spec fn steps_left(reload: Reload) -> int {
    match reload.phase {
        Phase::Register => 2 * reload.entries + 3,
        Phase::Apply => 2 * reload.entries + 2 - reload.applied,
        Phase::Restore => reload.entries + 1,
        Phase::Reapply => reload.entries - reload.applied,
        _ => 0,
    }
}

/// A reload under way gets to its end: every step leaves less to do.
pub proof fn reloads_end(reload: Reload, ok: bool)
    requires
        !(reload.phase is Reloaded),
        !(reload.phase is RolledBack),
        reload.phase is Apply || reload.phase is Reapply ==> reload.applied < reload.entries,
        reload.phase is Restore || reload.phase is Register ==> reload.applied == 0,
    ensures
        0 <= steps_left(advanced(reload, ok)) < steps_left(reload),
{
}

/// The keys of the entries bound to a plugin, in the order of the list.
pub open spec fn bound_keys(es: Seq<EntryView>, list: Seq<Seq<usize>>, name: Seq<char>) -> Seq<u64>
    decreases list.len(),
{
    if list.len() == 0 {
        Seq::empty()
    } else {
        let rest = bound_keys(es, list.drop_last(), name);
        if entry_at(es, list.last()).options.name == name {
            rest.push(entry_at(es, list.last()).key)
        } else {
            rest
        }
    }
}

impl EntryTree {
    /// The keys of the entries bound to the plugin `name`, depth first.
    pub fn bound_to(&self, name: &str) -> (r: Vec<u64>)
        ensures
            r@ == bound_keys(self@.root, walk(self@.root, Seq::empty()), name@),
    {
        broadcast use lemma_entry_view;

        let entries = self.entries();
        let ghost list = walk(self@.root, Seq::empty());
        let mut out: Vec<u64> = Vec::new();
        let mut i: usize = 0;
        assert(list.take(0) =~= Seq::<Seq<usize>>::empty());
        while i < entries.len()
            invariant
                i <= entries@.len(),
                entries@.len() == list.len(),
                forall|j: int|
                    0 <= j < entries@.len() ==> (#[trigger] entries@[j])@ == entry_at(
                        self@.root,
                        list[j],
                    ),
                out@ == bound_keys(self@.root, list.take(i as int), name@),
            decreases entries@.len() - i,
        {
            assert(list.take(i + 1).drop_last() =~= list.take(i as int));
            assert(entries@[i as int]@ == entry_at(self@.root, list[i as int]));
            if same_text(entries[i].options.name.as_str(), name) {
                out.push(entries[i].key);
            }
            i += 1;
        }
        assert(list.take(i as int) =~= list);
        out
    }
}

impl ReloadReport {
    /// The report of no reload.
    pub fn new() -> (r: ReloadReport)
        ensures
            texts(r.reloaded@) == Seq::<Seq<char>>::empty(),
            texts(r.rolled_back@) == Seq::<Seq<char>>::empty(),
    {
        let r = ReloadReport { reloaded: Vec::new(), rolled_back: Vec::new() };
        assert(texts(r.reloaded@) =~= Seq::<Seq<char>>::empty());
        assert(texts(r.rolled_back@) =~= Seq::<Seq<char>>::empty());
        r
    }

    /// Notes how the reload of a plugin ended; one that has not ended is not noted.
    pub fn note(&mut self, name: String, reload: &Reload)
        ensures
            texts(final(self).reloaded@) == (if reload.phase is Reloaded {
                texts(old(self).reloaded@).push(name@)
            } else {
                texts(old(self).reloaded@)
            }),
            texts(final(self).rolled_back@) == (if reload.phase is RolledBack {
                texts(old(self).rolled_back@).push(name@)
            } else {
                texts(old(self).rolled_back@)
            }),
            texts(final(self).reloaded@) == listed_after(
                texts(old(self).reloaded@),
                name@,
                *reload,
                Phase::Reloaded,
            ),
            texts(final(self).rolled_back@) == listed_after(
                texts(old(self).rolled_back@),
                name@,
                *reload,
                Phase::RolledBack,
            ),
    {
        let ghost first = texts(self.reloaded@);
        let ghost second = texts(self.rolled_back@);
        let ghost added = name@;
        match reload.phase {
            Phase::Reloaded => {
                self.reloaded.push(name);
                assert(texts(self.reloaded@) =~= first.push(added));
            },
            Phase::RolledBack => {
                self.rolled_back.push(name);
                assert(texts(self.rolled_back@) =~= second.push(added));
            },
            _ => {},
        }
    }
}

/// The names listed under a phase after one more reload.
pub open spec fn listed_after(
    list: Seq<Seq<char>>,
    name: Seq<char>,
    reload: Reload,
    phase: Phase,
) -> Seq<Seq<char>> {
    if reload.phase == phase {
        list.push(name)
    } else {
        list
    }
}

/// The names whose reload ended in a phase, in the order of the requests: what a report lists
/// after noting each of them.
pub open spec fn ended_in(names: Seq<Seq<char>>, ends: Seq<Reload>, phase: Phase) -> Seq<Seq<char>>
    decreases names.len(),
{
    if names.len() == 0 {
        Seq::empty()
    } else {
        listed_after(
            ended_in(names.drop_last(), ends.drop_last(), phase),
            names.last(),
            ends.last(),
            phase,
        )
    }
}

/// Of requests with different names, each is listed once: under the phase that its reload ended
/// in, whatever became of the others.
pub proof fn reports_list_each_once(names: Seq<Seq<char>>, ends: Seq<Reload>, phase: Phase)
    requires
        names.len() == ends.len(),
        names.no_duplicates(),
    ensures
        ended_in(names, ends, phase).no_duplicates(),
        forall|i: int|
            0 <= i < names.len() ==> (ended_in(names, ends, phase).contains(#[trigger] names[i])
                <==> ends[i].phase == phase),
        forall|name: Seq<char>|
            ended_in(names, ends, phase).contains(name) ==> names.contains(name),
    decreases names.len(),
{
    let all = ended_in(names, ends, phase);
    if names.len() > 0 {
        let front = names.drop_last();
        reports_list_each_once(front, ends.drop_last(), phase);
        let rest = ended_in(front, ends.drop_last(), phase);
        let n = names.len() - 1;
        assert(!rest.contains(names.last())) by {
            if rest.contains(names.last()) {
                assert(front.contains(names.last()));
                let i = choose|i: int| 0 <= i < front.len() && front[i] == names.last();
                assert(names[i] == names[n]);
            }
        }
        assert forall|name: Seq<char>| #[trigger] all.contains(name) implies rest.contains(name)
            || (ends.last().phase == phase && name == names.last()) by {
            let k = choose|k: int| 0 <= k < all.len() && all[k] == name;
            if k < rest.len() {
                assert(rest[k] == name);
            }
        }
        assert forall|name: Seq<char>| #[trigger] rest.contains(name) implies all.contains(name) by {
            let k = choose|k: int| 0 <= k < rest.len() && rest[k] == name;
            assert(all[k] == name);
        }
        assert forall|name: Seq<char>| #[trigger] all.contains(name) implies names.contains(name) by {
            if rest.contains(name) {
                assert(front.contains(name));
                let i = choose|i: int| 0 <= i < front.len() && front[i] == name;
                assert(names[i] == name);
            } else {
                assert(names[n] == name);
            }
        }
        assert forall|i: int| 0 <= i < names.len() implies (all.contains(#[trigger] names[i])
            <==> ends[i].phase == phase) by {
            if i < n {
                assert(front[i] == names[i]);
                assert(ends.drop_last()[i] == ends[i]);
                assert(names[i] != names[n]);
            } else if ends[i].phase == phase {
                assert(all[all.len() - 1] == names[n]);
            }
        }
        assert(all.no_duplicates()) by {
            assert forall|a: int, b: int| 0 <= a < b < all.len() implies all[a] != all[b] by {
                assert(all[a] == rest[a]);
                assert(rest.contains(rest[a]));
                if b < rest.len() {
                    assert(all[b] == rest[b]);
                }
            }
        }
    }
}

impl Default for ReloadReport {
    fn default() -> (r: ReloadReport)
        ensures
            texts(r.reloaded@) == Seq::<Seq<char>>::empty(),
            texts(r.rolled_back@) == Seq::<Seq<char>>::empty(),
    {
        ReloadReport::new()
    }
}

} // verus!
