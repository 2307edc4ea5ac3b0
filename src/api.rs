//! What a mod sees of the host: system sets, commands and schedule labels.
use vstd::prelude::*;
use vstd::string::StringSliceAdditionalSpecFns;
use crate::ids::{StableId, SystemId};
use crate::manifest::FeatureDescriptor;
use crate::schedule::System as SystemDescriptor;
use crate::schedule::SystemSet as ScheduleSet;

verus! {

/// A system that can be run with an input to give an output.
pub trait System {
    type In;

    type Out;

    /// Runs the system with the given input.
    fn run(&mut self, input: Self::In) -> Self::Out;
}

/// Marks a system parameter as the system's input.
#[derive(Debug)]
pub struct In<T>(pub T);

/// Queues changes to the host's world from within a system.
pub struct Commands<'a>(pub core::marker::PhantomData<&'a ()>);

/// Commands for one entity, whose id the host gave.
pub struct EntityCommands<'a>(pub u32, pub core::marker::PhantomData<&'a ()>);

/// An entity of the host's world.
#[derive(Clone, Copy, Debug, PartialEq, Eq, Structural)]
pub struct Entity(pub u32);

impl<'a> EntityCommands<'a> {
    pub fn id(&self) -> (r: Entity)
        ensures
            r.0 == self.0,
    {
        Entity(self.0)
    }
}

/// The metadata of systems gathered from a set.
pub struct Systems(pub Vec<SystemDescriptor>);

/// A member of a system set: a single system, or a named set.
#[derive(Clone, Debug)]
pub enum Sys {
    Anonymous(SystemId),
    Named(StableId),
}

/// The members of a system set as a mod declares it.
pub struct SystemSet(pub Vec<Sys>);

/// Marks a set made of a single function system.
#[derive(Clone, Copy, Debug)]
pub struct SystemMarker;

/// Marks a set made of a tuple of sets.
#[derive(Clone, Copy, Debug)]
pub struct TupleMarker;

/// The named sets among the members, in order.
pub open spec fn named_members(s: Seq<Sys>) -> Seq<StableId>
    decreases s.len(),
{
    if s.len() == 0 {
        Seq::empty()
    } else {
        match s.last() {
            Sys::Named(n) => named_members(s.drop_last()).push(n),
            Sys::Anonymous(_) => named_members(s.drop_last()),
        }
    }
}

/// The single systems among the members, in order.
pub open spec fn anonymous_members(s: Seq<Sys>) -> Seq<SystemId>
    decreases s.len(),
{
    if s.len() == 0 {
        Seq::empty()
    } else {
        match s.last() {
            Sys::Anonymous(id) => anonymous_members(s.drop_last()).push(id),
            Sys::Named(_) => anonymous_members(s.drop_last()),
        }
    }
}

impl SystemSet {
    /// The fewest sets: each named set, then one anonymous set of all single
    /// systems if there are any.
    pub fn into_min_sets(self) -> (r: Vec<ScheduleSet>)
        ensures
            anonymous_members(self.0@).len() == 0 ==> r@.len() == named_members(self.0@).len(),
            anonymous_members(self.0@).len() > 0 ==> r@.len() == named_members(self.0@).len() + 1
                && r@.last() is Anonymous && r@.last()->Anonymous_0@ == anonymous_members(self.0@),
            forall|i: int|
                0 <= i < named_members(self.0@).len() ==> (#[trigger] r@[i]) is Named && r@[i]->Named_0
                    == named_members(self.0@)[i],
    {
        let ghost orig = self.0@;
        let mut rest = self.0;
        let mut anonymous: Vec<SystemId> = Vec::new();
        let mut sets: Vec<ScheduleSet> = Vec::new();
        let mut k: usize = 0;
        let n = rest.len();
        while rest.len() > 0
            invariant
                k + rest@.len() == n,
                n == orig.len(),
                rest@ == orig.subrange(k as int, n as int),
                anonymous@ == anonymous_members(orig.subrange(0, k as int)),
                sets@.len() == named_members(orig.subrange(0, k as int)).len(),
                forall|i: int|
                    0 <= i < sets@.len() ==> (#[trigger] sets@[i]) is Named && sets@[i]->Named_0
                        == named_members(orig.subrange(0, k as int))[i],
            decreases rest@.len(),
        {
            let sys = rest.remove(0);
            proof {
                let pre = orig.subrange(0, k as int + 1);
                assert(pre.drop_last() =~= orig.subrange(0, k as int));
                assert(pre.last() == sys);
            }
            match sys {
                Sys::Anonymous(id) => anonymous.push(id),
                Sys::Named(name) => sets.push(ScheduleSet::Named(name)),
            }
            k += 1;
            proof {
                assert(rest@ =~= orig.subrange(k as int, n as int));
            }
        }
        assert(orig.subrange(0, k as int) =~= orig);
        if anonymous.len() > 0 {
            sets.push(ScheduleSet::Anonymous(anonymous));
        }
        sets
    }

    /// One set per member: a named set as it is, a single system as an
    /// anonymous set of one.
    pub fn into_max_sets(self) -> (r: Vec<ScheduleSet>)
        ensures
            r@.len() == self.0@.len(),
            forall|i: int|
                0 <= i < r@.len() ==> match self.0@[i] {
                    Sys::Anonymous(id) => (#[trigger] r@[i]) is Anonymous && r@[i]->Anonymous_0@ == seq![id],
                    Sys::Named(name) => r@[i] is Named && r@[i]->Named_0 == name,
                },
    {
        let ghost orig = self.0@;
        let mut rest = self.0;
        let mut sets: Vec<ScheduleSet> = Vec::new();
        let mut k: usize = 0;
        let n = rest.len();
        while rest.len() > 0
            invariant
                k + rest@.len() == n,
                n == orig.len(),
                rest@ == orig.subrange(k as int, n as int),
                sets@.len() == k,
                forall|i: int|
                    0 <= i < k ==> match orig[i] {
                        Sys::Anonymous(id) => (#[trigger] sets@[i]) is Anonymous && sets@[i]->Anonymous_0@ == seq![id],
                        Sys::Named(name) => sets@[i] is Named && sets@[i]->Named_0 == name,
                    },
            decreases rest@.len(),
        {
            let sys = rest.remove(0);
            assert(sys == orig[k as int]);
            match sys {
                Sys::Anonymous(id) => {
                    let mut one: Vec<SystemId> = Vec::new();
                    one.push(id);
                    assert(one@ =~= seq![id]);
                    sets.push(ScheduleSet::Anonymous(one));
                },
                Sys::Named(name) => sets.push(ScheduleSet::Named(name)),
            }
            k += 1;
            proof {
                assert(rest@ =~= orig.subrange(k as int, n as int));
            }
        }
        sets
    }
}

/// A type with an identifier that stays the same across builds.
pub trait HasStableId {
    const STABLE_ID: &'static str;
}

/// A label that names a schedule.
pub trait ScheduleLabel: HasStableId {
    fn id(&self) -> &'static str {
        Self::STABLE_ID
    }
}

/// What a mod's init function uses to add features.
pub struct Harmony {
    pub features: Vec<FeatureDescriptor>,
}

/// Loads mods into a running host; the host wires it into its own loop.
#[derive(Clone, Copy, Debug)]
pub struct ModLoaderPlugin;

/// The last position of a space, or -1 if there is none.
pub open spec fn last_space(s: Seq<char>) -> int
    decreases s.len(),
{
    if s.len() == 0 {
        -1
    } else if s.last() == ' ' {
        s.len() - 1
    } else {
        last_space(s.drop_last())
    }
}

/// The name of a system taken from its full type name: a name ending in `>`
/// keeps what follows its last space, without the final `>`; any other name
/// stays whole.
pub open spec fn system_name(s: Seq<char>) -> Seq<char> {
    if s.len() > 0 && s.last() == '>' {
        s.subrange(last_space(s) + 1, s.len() - 1)
    } else {
        s
    }
}

proof fn lemma_last_space(s: Seq<char>, k: int)
    requires
        0 <= k <= s.len(),
        forall|j: int| k <= j < s.len() ==> s[j] != ' ',
    ensures
        last_space(s) == last_space(s.subrange(0, k)),
        -1 <= last_space(s) < s.len(),
    decreases s.len() - k,
{
    if k < s.len() {
        lemma_last_space(s, k + 1);
        let t = s.subrange(0, k + 1);
        assert(t.drop_last() =~= s.subrange(0, k));
    } else {
        assert(s.subrange(0, k) =~= s);
    }
    lemma_last_space_bounds(s);
}

proof fn lemma_last_space_bounds(s: Seq<char>)
    ensures
        -1 <= last_space(s) < s.len(),
    decreases s.len(),
{
    if s.len() > 0 {
        lemma_last_space_bounds(s.drop_last());
    }
}

/// Takes a full type name and extracts the system name from it.
pub fn extract_system_name(original: &str) -> (r: &str)
    requires
        original.spec_bytes().len() >= 4,
    ensures
        r@ == system_name(original@),
{
    let n = original.unicode_len();
    if n > 0 && original.get_char(n - 1) == '>' {
        let mut k: usize = n;
        let mut found = false;
        assert(original@.subrange(0, n as int) =~= original@);
        while !found && k > 0
            invariant
                0 <= k <= n,
                n == original@.len(),
                n >= 1,
                original@[n - 1] == '>',
                found ==> k > 0 && original@[k - 1] == ' ',
                forall|j: int| k <= j < n ==> original@[j] != ' ',
                last_space(original@) == last_space(original@.subrange(0, k as int)),
            decreases k + (if found { 0int } else { 1int }),
        {
            let ghost pre = original@.subrange(0, k as int);
            assert(pre.drop_last() =~= original@.subrange(0, k as int - 1));
            if original.get_char(k - 1) == ' ' {
                found = true;
            } else {
                k -= 1;
            }
        }
        proof {
            lemma_last_space_bounds(original@);
            if k == 0 {
                assert(original@.subrange(0, 0) =~= Seq::<char>::empty());
            } else {
                let pre = original@.subrange(0, k as int);
                assert(pre.last() == ' ');
                assert(last_space(pre) == k - 1);
            }
        }
        original.substring_char(k, n - 1)
    } else {
        original
    }
}

} // verus!
