//! A catalog of production resources that stays closed under a set of
//! derivation rules, and a resolver that expands recipe patterns written over
//! resource selectors into concrete recipes.
use vstd::prelude::*;

pub mod processing;
pub mod production;

verus! {

/// Where the recipe pattern document lives, relative to the working directory.
pub fn recipe_path() -> (r: String)
    ensures
        r@ == "configurations/recipes.json"@,
{
    let mut start = "configurations".to_owned();
    start.append("/");
    start.append("recipes.json");
    proof {
        reveal_strlit("configurations");
        reveal_strlit("/");
        reveal_strlit("recipes.json");
        reveal_strlit("configurations/recipes.json");
        assert(start@ =~= "configurations/recipes.json"@);
    }
    start
}

} // verus!
