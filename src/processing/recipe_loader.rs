use crate::processing::recipe::{
    all_resolve, product, recipe_for, slot_lists, Recipe, RecipeError, RecipePattern,
};
use crate::production::resource::ResourceManager;
use vstd::prelude::*;

verus! {

/// The recipes of a pattern document: for each pattern, its name and what it
/// expanded to.
#[derive(Debug)]
pub struct RecipeLoader {
    pub file_path: String,
    pub created_recipes: Vec<(String, Vec<Recipe>)>,
}

/// `entry` holds the name of `named` and the recipes its pattern expands to
/// against `res`, in order.
pub open spec fn expanded(
    entry: (String, Vec<Recipe>),
    named: (String, RecipePattern),
    res: Seq<crate::production::resource::Resource>,
) -> bool {
    &&& entry.0@ == named.0@
    &&& entry.1@.len() == product(slot_lists(named.1, res)).len()
    &&& forall|e: int|
        0 <= e < entry.1@.len() ==> recipe_for(
            #[trigger] entry.1@[e],
            named.1,
            product(slot_lists(named.1, res))[e],
        )
}

impl RecipeLoader {
    pub fn new(file_path: &str) -> (r: RecipeLoader)
        ensures
            r.file_path@ == file_path@,
            r.created_recipes@.len() == 0,
    {
        RecipeLoader { file_path: file_path.to_owned(), created_recipes: Vec::new() }
    }

    pub fn file_path(&self) -> (r: &String)
        ensures
            r@ == self.file_path@,
    {
        &self.file_path
    }

    /// Expands each named pattern against `manager`, in order, and stores
    /// its recipes under its name. Stops at the first pattern with a name
    /// that the catalog lacks.
    pub fn add_patterns(
        &mut self,
        manager: &ResourceManager,
        patterns: &Vec<(String, RecipePattern)>,
    ) -> (r: Result<(), RecipeError>)
        requires
            manager.wf(),
            forall|i: int|
                0 <= i < patterns@.len() ==> (#[trigger] patterns@[i]).1.input@.len()
                    + patterns@[i].1.output@.len() <= usize::MAX,
        ensures
            r is Ok <==> forall|i: int|
                0 <= i < patterns@.len() ==> all_resolve(
                    (#[trigger] patterns@[i]).1,
                    manager.resources@,
                ),
            r is Err ==> r == Err::<(), RecipeError>(RecipeError::ResourceNotFound),
            final(self).file_path == old(self).file_path,
            final(self).created_recipes@.len() >= old(self).created_recipes@.len(),
            forall|i: int|
                0 <= i < old(self).created_recipes@.len() ==> final(self).created_recipes@[i]
                    == #[trigger] old(self).created_recipes@[i],
            ({
                let done = final(self).created_recipes@.len() - old(self).created_recipes@.len();
                &&& done <= patterns@.len()
                &&& forall|i: int|
                    0 <= i < done ==> expanded(
                        final(self).created_recipes@[old(self).created_recipes@.len() + i],
                        #[trigger] patterns@[i],
                        manager.resources@,
                    )
                &&& r is Ok ==> done == patterns@.len()
                &&& r is Err ==> done < patterns@.len() && !all_resolve(
                    patterns@[done].1,
                    manager.resources@,
                )
            }),
    {
        let ghost start = self.created_recipes@;
        let mut i: usize = 0;
        while i < patterns.len()
            invariant
                manager.wf(),
                forall|i: int|
                    0 <= i < patterns@.len() ==> (#[trigger] patterns@[i]).1.input@.len()
                        + patterns@[i].1.output@.len() <= usize::MAX,
                start == old(self).created_recipes@,
                self.file_path == old(self).file_path,
                0 <= i <= patterns@.len(),
                self.created_recipes@.len() == start.len() + i,
                forall|j: int| 0 <= j < start.len() ==> self.created_recipes@[j] == #[trigger] start[j],
                forall|j: int|
                    0 <= j < i ==> all_resolve((#[trigger] patterns@[j]).1, manager.resources@),
                forall|j: int|
                    0 <= j < i ==> expanded(
                        self.created_recipes@[start.len() + j],
                        #[trigger] patterns@[j],
                        manager.resources@,
                    ),
            decreases patterns@.len() - i,
        {
            let named = &patterns[i];
            match named.1.into_recipes(manager) {
                Ok(recipes) => {
                    let entry = (named.0.clone(), recipes);
                    assert(expanded(entry, patterns@[i as int], manager.resources@));
                    self.created_recipes.push(entry);
                },
                Err(e) => {
                    return Err(e);
                },
            }
            i = i + 1;
        }
        Ok(())
    }
}

} // verus!
