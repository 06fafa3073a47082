//! The rules that were set up for a tunnel, and the guard that keeps them.

use vstd::prelude::*;

verus! {

/// A rule that stands in the table.
#[derive(Debug)]
pub struct NftRule {
    pub chain: String,
    pub handle: u64,
    pub description: String,
}

/// The model of an `NftRule`.
pub struct NftRuleView {
    pub chain: Seq<char>,
    pub handle: u64,
    pub description: Seq<char>,
}

impl View for NftRule {
    type V = NftRuleView;

    open spec fn view(&self) -> NftRuleView {
        NftRuleView { chain: self.chain@, handle: self.handle, description: self.description@ }
    }
}

impl Clone for NftRule {
    fn clone(&self) -> (copy: Self)
        ensures
            copy@ == self@,
    {
        NftRule {
            chain: self.chain.clone(),
            handle: self.handle,
            description: self.description.clone(),
        }
    }
}

/// The views of a sequence of rules.
pub open spec fn rule_views(rules: Seq<NftRule>) -> Seq<NftRuleView> {
    rules.map_values(|rule: NftRule| rule@)
}

/// Keeps the rules that were set up, until they are removed.
#[derive(Debug)]
pub struct NftRuleGuard {
    pub rules: Vec<NftRule>,
    pub removed: bool,
}

/// The model of an `NftRuleGuard`.
pub struct NftRuleGuardView {
    pub rules: Seq<NftRuleView>,
    pub removed: bool,
}

impl View for NftRuleGuard {
    type V = NftRuleGuardView;

    open spec fn view(&self) -> NftRuleGuardView {
        NftRuleGuardView { rules: rule_views(self.rules@), removed: self.removed }
    }
}

impl NftRuleGuardView {
    /// A guard that keeps nothing yet.
    pub open spec fn empty() -> NftRuleGuardView {
        NftRuleGuardView { rules: seq![], removed: false }
    }

    /// The guard after its rules were removed.
    pub open spec fn spent(self) -> NftRuleGuardView {
        NftRuleGuardView { rules: self.rules, removed: true }
    }

    /// The guard with more rules behind those that it keeps.
    pub open spec fn with(self, more: Seq<NftRuleView>) -> NftRuleGuardView {
        NftRuleGuardView { rules: self.rules + more, removed: self.removed }
    }
}

impl NftRuleGuard {
    /// Returns a guard that keeps nothing yet.
    pub fn new() -> (guard: Self)
        ensures
            guard@ == NftRuleGuardView::empty(),
    {
        let guard = NftRuleGuard { rules: Vec::new(), removed: false };
        assert(guard@.rules =~= NftRuleGuardView::empty().rules);
        guard
    }
}

} // verus!
