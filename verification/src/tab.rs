//! The dashboard's top-level tabs and how they cycle.

use vstd::prelude::*;

verus! {

/// A top-level tab of the dashboard.
#[derive(Debug, Clone, Copy, PartialEq, Eq, Structural)]
pub enum Tab {
    Group,
    Provider,
}

impl Tab {
    /// The display name of a tab.
    pub open spec fn name_spec(self) -> Seq<char> {
        match self {
            Tab::Group => "Group"@,
            Tab::Provider => "Provider"@,
        }
    }

    pub fn str(&self) -> (r: &'static str)
        ensures
            r@ == self.name_spec(),
    {
        match self {
            Tab::Group => "Group",
            Tab::Provider => "Provider",
        }
    }

    /// Every tab, in display order.
    pub fn variants() -> (r: Vec<Tab>)
        ensures
            r@ == seq![Tab::Group, Tab::Provider],
    {
        let mut v: Vec<Tab> = Vec::new();
        v.push(Tab::Group);
        v.push(Tab::Provider);
        proof {
            assert(v@ =~= seq![Tab::Group, Tab::Provider]);
        }
        v
    }

    /// The display names of every tab, in display order.
    pub fn all_names() -> (r: Vec<&'static str>)
        ensures
            r@.len() == 2,
            r@[0]@ == Tab::Group.name_spec(),
            r@[1]@ == Tab::Provider.name_spec(),
    {
        let mut v: Vec<&'static str> = Vec::new();
        v.push("Group");
        v.push("Provider");
        v
    }

    /// Cycles forward to the next tab.
    pub fn next(&mut self)
        ensures
            *final(self) == (match *old(self) {
                Tab::Group => Tab::Provider,
                Tab::Provider => Tab::Group,
            }),
    {
        *self = match *self {
            Tab::Group => Tab::Provider,
            Tab::Provider => Tab::Group,
        };
    }

    /// Cycles backward to the previous tab.
    pub fn prev(&mut self)
        ensures
            *final(self) == (match *old(self) {
                Tab::Group => Tab::Provider,
                Tab::Provider => Tab::Group,
            }),
    {
        *self = match *self {
            Tab::Group => Tab::Provider,
            Tab::Provider => Tab::Group,
        };
    }
}

} // verus!
