//! `ml_list_models`: the cached models and how well they fit.

use vstd::prelude::*;
use crate::model::registry::{ModelRegistry, RegistryView};
use crate::model::types;
use crate::table;
use crate::table::{chunk_size, take_turn};
use crate::text;

verus! {

/// Whether the rows were handed out.
pub struct LInitData {
    pub done: bool,
}

impl LInitData {
    pub fn init() -> (r: Self)
        ensures
            !r.done,
    {
        LInitData { done: false }
    }

    /// How many of `total` rows are to be handed out now, and notes that they
    /// are: the first rows on the first call, none later.
    pub fn take(&mut self, total: usize) -> (n: usize)
        ensures
            n == if old(self).done {
                0
            } else {
                table::chunk_len(total as nat, 0)
            },
            final(self).done,
    {
        if take_turn(&mut self.done) {
            chunk_size(total, 0)
        } else {
            0
        }
    }
}

/// The rows of the list, column by column; the measures are the bits of doubles.
#[derive(Debug, PartialEq, Eq)]
pub struct LBindData {
    pub names: Vec<String>,
    pub algorithms: Vec<String>,
    pub r_squared: Vec<Option<u64>>,
    pub mse: Vec<Option<u64>>,
}

/// Every model of a registry was used at one time.
pub open spec fn all_touched<M>(s: RegistryView<M>, now: u64) -> RegistryView<M> {
    RegistryView { last_used: Map::new(|name: Seq<char>| s.models.contains_key(name), |name: Seq<char>| now), ..s }
}

impl LBindData {
    /// Row `i` of the list is what the registry knows of the model of that name.
    pub open spec fn row_shows<M>(self, s: RegistryView<M>, i: int) -> bool {
        let name = self.names@[i]@;
        &&& s.models.contains_key(name)
        &&& self.algorithms@[i]@ == types::name_of(s.models[name].metadata.algorithm)
        &&& self.r_squared@[i] == s.models[name].metadata.r_squared
        &&& self.mse@[i] == s.models[name].metadata.mse
    }
}

/// The `ml_list_models` function.
pub struct ListModelsFn;

impl ListModelsFn {
    /// Lists every cached model once. Looking at the models counts as a use.
    pub fn bind<M>(registry: &mut ModelRegistry<M>, now: u64) -> (r: LBindData)
        requires
            old(registry).well_formed(),
        ensures
            final(registry).well_formed(),
            text::texts(r.names@).no_duplicates(),
            text::texts(r.names@).to_set() == old(registry)@.models.dom(),
            r.algorithms@.len() == r.names@.len(),
            r.r_squared@.len() == r.names@.len(),
            r.mse@.len() == r.names@.len(),
            forall|i: int|
                #![trigger r.names@[i]]
                0 <= i < r.names@.len() ==> r.row_shows(old(registry)@, i),
            final(registry)@ == all_touched(old(registry)@, now),
    {
        let ghost before = registry@;
        let names: Vec<String> = registry.list();
        let mut algorithms: Vec<String> = Vec::new();
        let mut r_squared: Vec<Option<u64>> = Vec::new();
        let mut mse: Vec<Option<u64>> = Vec::new();
        let mut i: usize = 0;
        proof {
            registry.law_parts_agree();
            assert(registry@.last_used.dom() == before.models.dom());
        }
        while i < names.len()
            invariant
                registry.well_formed(),
                text::texts(names@).to_set() == before.models.dom(),
                i <= names@.len(),
                algorithms@.len() == i,
                r_squared@.len() == i,
                mse@.len() == i,
                registry@ == (RegistryView { last_used: registry@.last_used, ..before }),
                registry@.last_used.dom() == before.models.dom(),
                forall|x: int| 0 <= x < i ==> registry@.last_used[#[trigger] names@[x]@] == now,
                forall|x: int|
                    #![trigger names@[x]]
                    0 <= x < i ==> before.models.contains_key(names@[x]@) && algorithms@[x]@ == types::name_of(
                        before.models[names@[x]@].metadata.algorithm,
                    ) && r_squared@[x] == before.models[names@[x]@].metadata.r_squared && mse@[x]
                        == before.models[names@[x]@].metadata.mse,
            decreases names.len() - i,
        {
            let ghost middle = registry@;
            proof {
                assert(text::texts(names@)[i as int] == names@[i as int]@);
                assert(text::texts(names@).to_set().contains(names@[i as int]@));
            }
            if let Some(entry) = registry.get(names[i].as_str(), now) {
                algorithms.push(entry.metadata.algorithm.name());
                r_squared.push(entry.metadata.r_squared);
                mse.push(entry.metadata.mse);
            }
            assert(registry@.last_used.dom() =~= middle.last_used.dom());
            i = i + 1;
        }
        let r = LBindData { names, algorithms, r_squared, mse };
        proof {
            assert forall|name: Seq<char>| before.models.contains_key(name) implies registry@.last_used[name] == now by {
                assert(text::texts(names@).to_set().contains(name));
                let x = choose|x: int| 0 <= x < names@.len() && text::texts(names@)[x] == name;
                assert(registry@.last_used[names@[x]@] == now);
            }
            assert(registry@.last_used =~= all_touched(before, now).last_used);
            assert(registry@ =~= all_touched(before, now));
        }
        r
    }
}

} // verus!
