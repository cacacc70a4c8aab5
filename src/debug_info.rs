use std::collections::HashMap;
use vstd::prelude::*;

verus! {

/// What the assembler records for debugging: breakpoint addresses, the
/// label defined at each address, and whether execution is verbose. The
/// breakpoints are the keys of a map, which copies with a known content.
#[derive(Clone, Debug)]
pub struct DebugInfo {
    breakpoints: HashMap<i64, ()>,
    labels: HashMap<i64, String>,
    verbose: bool,
}

impl DebugInfo {
    pub closed spec fn spec_breakpoints(&self) -> Set<i64> {
        self.breakpoints@.dom()
    }

    pub closed spec fn spec_labels(&self) -> Map<i64, String> {
        self.labels@
    }

    /// The label names by address, as character sequences.
    pub open spec fn spec_label_names(&self) -> Map<i64, Seq<char>> {
        self.spec_labels().map_values(|s: String| s@)
    }

    pub closed spec fn spec_verbose(&self) -> bool {
        self.verbose
    }

    /// Debug information with nothing recorded, as a program loaded from a
    /// binary has.
    pub open spec fn is_empty(&self) -> bool {
        &&& self.spec_breakpoints() == Set::<i64>::empty()
        &&& self.spec_labels() == Map::<i64, String>::empty()
        &&& !self.spec_verbose()
    }

    pub fn new() -> (r: Self)
        ensures
            r.is_empty(),
    {
        DebugInfo { breakpoints: HashMap::new(), labels: HashMap::new(), verbose: false }
    }

    pub fn add_breakpoint(&mut self, addr: i64)
        ensures
            final(self).spec_breakpoints() == old(self).spec_breakpoints().insert(addr),
            final(self).spec_labels() == old(self).spec_labels(),
            final(self).spec_verbose() == old(self).spec_verbose(),
    {
        self.breakpoints.insert(addr, ());
        assert(self.spec_breakpoints() =~= old(self).spec_breakpoints().insert(addr));
    }

    pub fn breakpoint_at(&self, addr: i64) -> (r: bool)
        ensures
            r == self.spec_breakpoints().contains(addr),
    {
        self.breakpoints.contains_key(&addr)
    }

    /// Records `label` as the name of `addr`; a later label at the same
    /// address replaces it.
    pub fn add_label(&mut self, addr: i64, label: String)
        ensures
            final(self).spec_labels() == old(self).spec_labels().insert(addr, label),
            final(self).spec_label_names() == old(self).spec_label_names().insert(addr, label@),
            final(self).spec_breakpoints() == old(self).spec_breakpoints(),
            final(self).spec_verbose() == old(self).spec_verbose(),
    {
        let ghost v = label@;
        self.labels.insert(addr, label);
        assert(self.spec_label_names() =~= old(self).spec_label_names().insert(addr, v));
    }

    pub fn label_at(&self, addr: i64) -> (r: Option<&String>)
        ensures
            match r {
                Some(l) => self.spec_labels().contains_key(addr) && self.spec_labels()[addr]
                    == *l,
                None => !self.spec_labels().contains_key(addr),
            },
    {
        self.labels.get(&addr)
    }

    pub fn verbose(&self) -> (r: bool)
        ensures
            r == self.spec_verbose(),
    {
        self.verbose
    }

    pub fn set_verbose(&mut self, verbose: bool)
        ensures
            final(self).spec_verbose() == verbose,
            final(self).spec_breakpoints() == old(self).spec_breakpoints(),
            final(self).spec_labels() == old(self).spec_labels(),
    {
        self.verbose = verbose;
    }
}

impl Default for DebugInfo {
    fn default() -> (r: Self)
        ensures
            r.is_empty(),
    {
        DebugInfo::new()
    }
}

} // verus!
