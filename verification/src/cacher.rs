//! Memoised loading of configurations: each path is loaded once, later requests for it
//! are answered from the cache.

use vstd::prelude::*;
use crate::config::{Config, ConfigView};
use crate::str_map::StrMap;

verus! {

/// A cache of configurations by path, filled by calling `calculation` on a path the
/// first time it is asked for.
pub struct Cacher<T> where T: Fn(&str) -> Config {
    calculation: T,
    value: Option<StrMap<Config>>,
}

/// The contents of a cache of configurations.
pub open spec fn config_views(m: Map<Seq<char>, Config>) -> Map<Seq<char>, ConfigView> {
    m.map_values(|c: Config| c@)
}

impl<T> Cacher<T> where T: Fn(&str) -> Config {
    /// Whether asking `before` for `arg` may answer `r` and leave the cache `after`:
    /// a path asked for before is answered from the cache, which stays as it was;
    /// another is answered by the calculation, and its answer is cached.
    pub open spec fn value_outcome(before: Self, arg: &str, after: Self, r: Config) -> bool {
        &&& after.calculation_fn() == before.calculation_fn()
        &&& before.cached().dom().contains(arg@) ==> {
            &&& r@ == before.cached()[arg@]
            &&& after.cached() == before.cached()
        }
        &&& !before.cached().dom().contains(arg@) ==> {
            &&& call_ensures(before.calculation_fn(), (arg,), r)
            &&& after.cached() == before.cached().insert(arg@, r@)
        }
    }

    /// Asking twice for the same path gives the same configuration the second time as
    /// the first, and the second time leaves the cache as it was.
    pub proof fn law_value_repeats(c0: Self, c1: Self, c2: Self, arg: &str, r1: Config, r2: Config)
        requires
            Self::value_outcome(c0, arg, c1, r1),
            Self::value_outcome(c1, arg, c2, r2),
        ensures
            r2@ == r1@,
            c2.cached() == c1.cached(),
    {
    }

    /// Whether every configuration in the cache is a result of the calculation on its path.
    pub open spec fn holds_results(self) -> bool {
        forall|k: Seq<char>| #[trigger] self.cached().dom().contains(k) ==> exists|a: &str, c: Config|
            a@ == k && call_ensures(self.calculation_fn(), (a,), c) && c@ == self.cached()[k]
    }

    /// A call keeps every cached configuration a result of the calculation on its path:
    /// the entries it finds stay as they were, and the one it adds is the calculation's.
    pub proof fn law_value_keeps_results(before: Self, arg: &str, after: Self, r: Config)
        requires
            before.holds_results(),
            Self::value_outcome(before, arg, after, r),
        ensures
            after.holds_results(),
    {
        assert forall|k: Seq<char>| #[trigger] after.cached().dom().contains(k) implies exists|a: &str, c: Config|
            a@ == k && call_ensures(after.calculation_fn(), (a,), c) && c@ == after.cached()[k] by {
            if !before.cached().dom().contains(arg@) && k == arg@ {
                assert(arg@ == k && call_ensures(after.calculation_fn(), (arg,), r) && r@ == after.cached()[k]);
            } else {
                assert(before.cached().dom().contains(k));
            }
        }
    }

    /// The function that loads a configuration.
    pub closed spec fn calculation_fn(self) -> T {
        self.calculation
    }

    /// The configurations loaded so far, by path.
    pub closed spec fn cached(self) -> Map<Seq<char>, ConfigView> {
        match self.value {
            Some(m) => config_views(m@),
            None => Map::empty(),
        }
    }

    /// An empty cache that loads configurations with `calculation`.
    pub fn new(calculation: T) -> (r: Self)
        ensures
            r.calculation_fn() == calculation,
            r.cached() == Map::<Seq<char>, ConfigView>::empty(),
            r.holds_results(),
    {
        Cacher { calculation, value: None }
    }

    /// The configuration for `arg`: the cached one if `arg` was asked for before,
    /// otherwise the result of the calculation, which is then cached.
    pub fn value(&mut self, arg: &str) -> (r: Config)
        requires
            call_requires(old(self).calculation_fn(), (arg,)),
        ensures
            Self::value_outcome(*old(self), arg, *final(self), r),
            old(self).holds_results() ==> final(self).holds_results(),
    {
        let mut cache = match self.value.take() {
            Some(m) => m,
            None => StrMap::new(),
        };
        let r = match cache.get(arg) {
            Some(v) => v.duplicate(),
            None => {
                let v = (self.calculation)(arg);
                let stored = v.duplicate();
                cache.insert(arg.to_owned(), stored);
                assert(config_views(cache@) =~= old(self).cached().insert(arg@, v@));
                v
            },
        };
        self.value = Some(cache);
        proof {
            if old(self).holds_results() {
                Self::law_value_keeps_results(*old(self), arg, *self, r);
            }
        }
        r
    }
}

} // verus!
