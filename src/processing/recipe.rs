use crate::production::resource::{
    ids_are_positions, matching_ids, name_in, names_unique, ResourceManager, ResourceTag,
};
use vstd::prelude::*;

verus! {

/// Why a recipe pattern could not be resolved.
#[derive(Clone, Copy, Debug, PartialEq, Eq, Structural)]
pub enum RecipeError {
    /// A selector names a resource that the catalog lacks.
    ResourceNotFound,
    /// A selector is neither a name nor a well-formed tag filter.
    InvalidSelector,
}

/// A name of each tag, as pattern documents write it.
pub open spec fn tag_name(t: ResourceTag) -> Seq<char> {
    match t {
        ResourceTag::Base => "Base"@,
        ResourceTag::Metal => "Metal"@,
        ResourceTag::Ore => "Ore"@,
        ResourceTag::Ingot => "Ingot"@,
    }
}

/// Whether `name` is the name of a tag.
pub open spec fn is_tag_name(name: Seq<char>) -> bool {
    exists|t: ResourceTag| tag_name(t) == name
}

/// The tag written `name`, if any.
pub fn tag_from_name(name: &String) -> (r: Option<ResourceTag>)
    ensures
        r matches Some(t) ==> tag_name(t) == name@,
        r is None ==> forall|t: ResourceTag| tag_name(t) != name@,
{
    proof {
        reveal_strlit("Base");
        reveal_strlit("Metal");
        reveal_strlit("Ore");
        reveal_strlit("Ingot");
    }
    if *name == "Base".to_owned() {
        Some(ResourceTag::Base)
    } else if *name == "Metal".to_owned() {
        Some(ResourceTag::Metal)
    } else if *name == "Ore".to_owned() {
        Some(ResourceTag::Ore)
    } else if *name == "Ingot".to_owned() {
        Some(ResourceTag::Ingot)
    } else {
        proof {
            assert forall|t: ResourceTag| tag_name(t) != name@ by {
                match t {
                    ResourceTag::Base => {},
                    ResourceTag::Metal => {},
                    ResourceTag::Ore => {},
                    ResourceTag::Ingot => {},
                }
            }
        }
        None
    }
}

/// An abstract reference to resources: one by its exact name, or every one
/// whose tags cover a required set.
#[derive(Debug)]
pub enum ResourceSelector {
    Name(String),
    Tags(Vec<ResourceTag>),
}

impl ResourceSelector {
    /// A tag filter from tag names; `InvalidSelector` if one of them names no
    /// tag.
    pub fn from_tag_names(names: &Vec<String>) -> (r: Result<ResourceSelector, RecipeError>)
        ensures
            r is Ok <==> forall|j: int| 0 <= j < names@.len() ==> is_tag_name(#[trigger] names@[j]@),
            r is Err ==> r == Err::<ResourceSelector, RecipeError>(RecipeError::InvalidSelector),
            r matches Ok(sel) ==> sel matches ResourceSelector::Tags(tags) && tags@.len()
                == names@.len() && forall|j: int|
                0 <= j < tags@.len() ==> tag_name(#[trigger] tags@[j]) == names@[j]@,
    {
        let mut tags: Vec<ResourceTag> = Vec::new();
        let mut i: usize = 0;
        while i < names.len()
            invariant
                0 <= i <= names@.len(),
                tags@.len() == i,
                forall|j: int| 0 <= j < i ==> tag_name(#[trigger] tags@[j]) == names@[j]@,
            decreases names@.len() - i,
        {
            match tag_from_name(&names[i]) {
                Some(t) => tags.push(t),
                None => {
                    proof {
                        assert(!is_tag_name(names@[i as int]@));
                    }
                    return Err(RecipeError::InvalidSelector);
                },
            }
            i = i + 1;
        }
        proof {
            assert forall|j: int| 0 <= j < names@.len() implies is_tag_name(#[trigger] names@[j]@) by {
                assert(tag_name(tags@[j]) == names@[j]@);
            }
        }
        Ok(ResourceSelector::Tags(tags))
    }
}

/// The "tags" entry of a selector object in a pattern document.
#[derive(Debug)]
pub enum TagsShape {
    /// A list; each element is its text, or `None` where it is not a string.
    List(Vec<Option<String>>),
    /// Anything but a list.
    NotAList,
}

/// A selector as a pattern document writes it.
#[derive(Debug)]
pub enum SelectorShape {
    /// A string: the name of a resource.
    Text(String),
    /// An object, with its "tags" entry if it has one.
    Object(Option<TagsShape>),
    /// Any other value.
    Other,
}

/// Every element of `entries` is a string that names a tag.
pub open spec fn valid_tag_entries(entries: Seq<Option<String>>) -> bool {
    forall|j: int|
        0 <= j < entries.len() ==> (#[trigger] entries[j]) is Some && is_tag_name(
            entries[j]->Some_0@,
        )
}

/// Whether `shape` is a well-formed selector: a string, an object without
/// "tags", or an object whose "tags" is a list of tag names.
pub open spec fn shape_is_valid(shape: SelectorShape) -> bool {
    match shape {
        SelectorShape::Text(_) => true,
        SelectorShape::Object(None) => true,
        SelectorShape::Object(Some(TagsShape::List(entries))) => valid_tag_entries(entries@),
        _ => false,
    }
}

impl ResourceSelector {
    /// The selector that `shape` writes: a string names a resource, an
    /// object filters on the tags of its "tags" list (on no tag at all when
    /// it has none). Anything else is `InvalidSelector`.
    pub fn from_shape(shape: &SelectorShape) -> (r: Result<ResourceSelector, RecipeError>)
        ensures
            r is Ok <==> shape_is_valid(*shape),
            r is Err ==> r == Err::<ResourceSelector, RecipeError>(RecipeError::InvalidSelector),
            shape matches SelectorShape::Text(n) ==> r matches Ok(ResourceSelector::Name(m))
                && m@ == n@,
            *shape matches SelectorShape::Object(None) ==> r matches Ok(ResourceSelector::Tags(t))
                && t@.len() == 0,
            r matches Ok(ResourceSelector::Tags(t)) ==> *shape matches SelectorShape::Object(None)
                || (*shape matches SelectorShape::Object(Some(TagsShape::List(entries)))
                && t@.len() == entries@.len() && forall|j: int|
                0 <= j < t@.len() ==> tag_name(#[trigger] t@[j]) == entries@[j]->Some_0@),
    {
        match shape {
            SelectorShape::Text(name) => Ok(ResourceSelector::Name(name.clone())),
            SelectorShape::Object(None) => Ok(ResourceSelector::Tags(Vec::new())),
            SelectorShape::Object(Some(TagsShape::List(entries))) => {
                let mut tags: Vec<ResourceTag> = Vec::new();
                let mut i: usize = 0;
                while i < entries.len()
                    invariant
                        *shape == SelectorShape::Object(Some(TagsShape::List(*entries))),
                        0 <= i <= entries@.len(),
                        tags@.len() == i,
                        forall|j: int| 0 <= j < i ==> (#[trigger] entries@[j]) is Some,
                        forall|j: int|
                            0 <= j < i ==> tag_name(#[trigger] tags@[j]) == entries@[j]->Some_0@,
                    decreases entries@.len() - i,
                {
                    match &entries[i] {
                        Some(name) => match tag_from_name(name) {
                            Some(t) => tags.push(t),
                            None => {
                                proof {
                                    assert(!is_tag_name(entries@[i as int]->Some_0@));
                                    assert(!valid_tag_entries(entries@));
                                }
                                return Err(RecipeError::InvalidSelector);
                            },
                        },
                        None => {
                            proof {
                                assert(!valid_tag_entries(entries@));
                            }
                            return Err(RecipeError::InvalidSelector);
                        },
                    }
                    i = i + 1;
                }
                proof {
                    assert forall|j: int| 0 <= j < entries@.len() implies (#[trigger] entries@[j]) is Some
                        && is_tag_name(entries@[j]->Some_0@) by {
                        assert(tag_name(tags@[j]) == entries@[j]->Some_0@);
                    }
                }
                Ok(ResourceSelector::Tags(tags))
            },
            _ => Err(RecipeError::InvalidSelector),
        }
    }
}

/// The id of the resource of `res` named `name` (meaningful when there is
/// one).
pub open spec fn id_of_name(res: Seq<crate::production::resource::Resource>, name: Seq<char>) -> u64 {
    (choose|j: int| 0 <= j < res.len() && (#[trigger] res[j]).name@ == name) as u64
}

/// What `sel` resolves to against the catalog `res`: a name to the one id of
/// that name (`None` if there is none), a tag filter to the ids of every
/// resource whose tags cover it, in id order.
pub open spec fn resolved(sel: ResourceSelector, res: Seq<crate::production::resource::Resource>) -> Option<Seq<u64>> {
    match sel {
        ResourceSelector::Name(n) => if name_in(res, n@) {
            Some(seq![id_of_name(res, n@)])
        } else {
            None
        },
        ResourceSelector::Tags(tags) => Some(matching_ids(res, tags@)),
    }
}

/// The ids that `selector` stands for in `manager`.
pub fn resolve(selector: &ResourceSelector, manager: &ResourceManager) -> (r: Result<Vec<u64>, RecipeError>)
    requires
        manager.wf(),
    ensures
        r is Ok <==> resolved(*selector, manager.resources@) is Some,
        r is Err ==> r == Err::<Vec<u64>, RecipeError>(RecipeError::ResourceNotFound),
        r matches Ok(v) ==> v@ == resolved(*selector, manager.resources@)->Some_0,
{
    match selector {
        ResourceSelector::Name(name) => {
            match manager.resource_id_by_name(name.as_str()) {
                Some(id) => {
                    proof {
                        let res = manager.resources@;
                        let j = choose|j: int| 0 <= j < res.len() && (#[trigger] res[j]).name@ == name@;
                        assert(names_unique(res));
                        assert(res[id as int].name@ == name@);
                        assert(j == id as int);
                        assert(ids_are_positions(res));
                    }
                    let v: Vec<u64> = vec![id];
                    Ok(v)
                },
                None => Err(RecipeError::ResourceNotFound),
            }
        },
        ResourceSelector::Tags(tags) => Ok(manager.ids_with_tags(tags.as_slice())),
    }
}

/// `acc`'s lists, each extended by each element of `l` in turn: the lists
/// that extend `acc[0]` first.
pub open spec fn extend_each(acc: Seq<Seq<u64>>, l: Seq<u64>) -> Seq<Seq<u64>>
    decreases acc.len(),
{
    if acc.len() == 0 {
        Seq::empty()
    } else {
        extend_each(acc.drop_last(), l) + l.map_values(|x: u64| acc.last().push(x))
    }
}

/// Every choice of one element from each list of `lists`, in lexicographic
/// order: the first list varies slowest.
pub open spec fn product(lists: Seq<Seq<u64>>) -> Seq<Seq<u64>>
    decreases lists.len(),
{
    if lists.len() == 0 {
        seq![Seq::<u64>::empty()]
    } else {
        extend_each(product(lists.drop_last()), lists.last())
    }
}

/// The views of a sequence of vectors.
pub open spec fn views(v: Seq<Vec<u64>>) -> Seq<Seq<u64>> {
    v.map_values(|x: Vec<u64>| x@)
}

fn copy_ids(v: &Vec<u64>) -> (r: Vec<u64>)
    ensures
        r@ == v@,
{
    let mut out: Vec<u64> = Vec::new();
    let mut i: usize = 0;
    while i < v.len()
        invariant
            0 <= i <= v@.len(),
            out@ == v@.subrange(0, i as int),
        decreases v@.len() - i,
    {
        out.push(v[i]);
        i = i + 1;
        assert(out@ =~= v@.subrange(0, i as int));
    }
    assert(out@ =~= v@);
    out
}

/// Every choice of one id from each list of `input`, in lexicographic order.
pub fn super_set_iterator(input: &Vec<Vec<u64>>) -> (r: Vec<Vec<u64>>)
    ensures
        views(r@) == product(views(input@)),
{
    let mut acc: Vec<Vec<u64>> = Vec::new();
    acc.push(Vec::new());
    proof {
        assert(views(input@).subrange(0, 0) =~= Seq::<Seq<u64>>::empty());
        assert(views(acc@) =~= seq![Seq::<u64>::empty()]);
    }
    let mut s: usize = 0;
    while s < input.len()
        invariant
            0 <= s <= input@.len(),
            views(acc@) == product(views(input@).subrange(0, s as int)),
        decreases input@.len() - s,
    {
        let list = &input[s];
        let mut next: Vec<Vec<u64>> = Vec::new();
        let mut a: usize = 0;
        while a < acc.len()
            invariant
                0 <= a <= acc@.len(),
                views(next@) == extend_each(views(acc@).subrange(0, a as int), list@),
            decreases acc@.len() - a,
        {
            let ghost before = views(next@);
            let mut b: usize = 0;
            while b < list.len()
                invariant
                    0 <= a < acc@.len(),
                    0 <= b <= list@.len(),
                    views(next@) == before + list@.subrange(0, b as int).map_values(
                        |x: u64| acc@[a as int]@.push(x),
                    ),
                decreases list@.len() - b,
            {
                let mut choice = copy_ids(&acc[a]);
                choice.push(list[b]);
                let ghost prev = views(next@);
                next.push(choice);
                proof {
                    assert(views(next@) =~= prev.push(choice@));
                    assert(list@.subrange(0, b as int + 1).map_values(|x: u64| acc@[a as int]@.push(x))
                        =~= list@.subrange(0, b as int).map_values(|x: u64| acc@[a as int]@.push(x)).push(
                        acc@[a as int]@.push(list@[b as int]),
                    ));
                }
                b = b + 1;
            }
            proof {
                let sub = views(acc@).subrange(0, a as int + 1);
                assert(sub.drop_last() =~= views(acc@).subrange(0, a as int));
                assert(sub.last() == acc@[a as int]@);
                assert(list@.subrange(0, b as int) =~= list@);
            }
            a = a + 1;
        }
        proof {
            let pre = views(input@).subrange(0, s as int + 1);
            assert(pre.drop_last() =~= views(input@).subrange(0, s as int));
            assert(pre.last() == input@[s as int]@);
            assert(views(acc@).subrange(0, a as int) =~= views(acc@));
        }
        acc = next;
        s = s + 1;
    }
    proof {
        assert(views(input@).subrange(0, s as int) =~= views(input@));
    }
    acc
}

/// One side of a concrete recipe: a quantity of one resource.
#[derive(Clone, Copy, Debug, PartialEq, Eq, Structural)]
pub struct RecipeComponent {
    pub resource_id: u64,
    pub quantity: usize,
}

impl RecipeComponent {
    pub fn new(resource_id: u64, quantity: usize) -> (r: RecipeComponent)
        ensures
            r == (RecipeComponent { resource_id, quantity }),
    {
        RecipeComponent { resource_id, quantity }
    }
}

/// A production rule over concrete resources.
#[derive(Debug)]
pub struct Recipe {
    pub inputs: Vec<RecipeComponent>,
    pub outputs: Vec<RecipeComponent>,
    pub base_time: u16,
    pub requirements: Vec<String>,
}

impl Recipe {
    pub fn new(
        inputs: Vec<RecipeComponent>,
        outputs: Vec<RecipeComponent>,
        base_time: u16,
        requirements: Vec<String>,
    ) -> (r: Recipe)
        ensures
            r.inputs@ == inputs@,
            r.outputs@ == outputs@,
            r.base_time == base_time,
            r.requirements@ == requirements@,
    {
        Recipe { inputs, outputs, base_time, requirements }
    }
}

/// One slot of a recipe pattern: a selector and the quantity that each
/// resource it resolves to is used in.
#[derive(Debug)]
pub struct RecipePatternComponent {
    pub resource: ResourceSelector,
    pub quantity: usize,
}

impl RecipePatternComponent {
    pub fn new(resource: ResourceSelector, quantity: usize) -> (r: RecipePatternComponent)
        ensures
            r.resource == resource,
            r.quantity == quantity,
    {
        RecipePatternComponent { resource, quantity }
    }

    pub fn pattern(&self) -> (r: &ResourceSelector)
        ensures
            *r == self.resource,
    {
        &self.resource
    }

    pub fn quantity(&self) -> (r: usize)
        ensures
            r == self.quantity,
    {
        self.quantity
    }
}

/// A production rule over selectors, as a pattern document states it.
#[derive(Debug)]
pub struct RecipePattern {
    pub input: Vec<RecipePatternComponent>,
    pub output: Vec<RecipePatternComponent>,
    pub base_time: u16,
    pub requirements: Vec<String>,
}

/// The slots of `p`: its inputs, then its outputs.
pub open spec fn slots(p: RecipePattern) -> Seq<RecipePatternComponent> {
    p.input@ + p.output@
}

/// Every slot of `p` resolves against `res`.
pub open spec fn all_resolve(p: RecipePattern, res: Seq<crate::production::resource::Resource>) -> bool {
    forall|j: int| 0 <= j < slots(p).len() ==> (#[trigger] resolved(slots(p)[j].resource, res)) is Some
}

/// What each slot of `p` resolves to against `res`.
pub open spec fn slot_lists(p: RecipePattern, res: Seq<crate::production::resource::Resource>) -> Seq<Seq<u64>> {
    Seq::new(slots(p).len(), |j: int| resolved(slots(p)[j].resource, res)->Some_0)
}

/// `r` is `p` with its slots filled by the ids of `choice`, in slot order.
pub open spec fn recipe_for(r: Recipe, p: RecipePattern, choice: Seq<u64>) -> bool {
    &&& r.inputs@.len() == p.input@.len()
    &&& r.outputs@.len() == p.output@.len()
    &&& forall|t: int|
        0 <= t < p.input@.len() ==> #[trigger] r.inputs@[t] == (RecipeComponent {
            resource_id: choice[t],
            quantity: p.input@[t].quantity,
        })
    &&& forall|t: int|
        0 <= t < p.output@.len() ==> #[trigger] r.outputs@[t] == (RecipeComponent {
            resource_id: choice[p.input@.len() + t],
            quantity: p.output@[t].quantity,
        })
    &&& r.base_time == p.base_time
    &&& r.requirements@ == p.requirements@
}

proof fn lemma_extend_each_len(acc: Seq<Seq<u64>>, l: Seq<u64>, k: int)
    requires
        forall|a: int| 0 <= a < acc.len() ==> (#[trigger] acc[a]).len() == k,
    ensures
        forall|e: int|
            0 <= e < extend_each(acc, l).len() ==> (#[trigger] extend_each(acc, l)[e]).len() == k + 1,
        extend_each(acc, l).len() == acc.len() * l.len(),
    decreases acc.len(),
{
    if acc.len() > 0 {
        let init = acc.drop_last();
        assert forall|a: int| 0 <= a < init.len() implies (#[trigger] init[a]).len() == k by {
            assert(init[a] == acc[a]);
        }
        lemma_extend_each_len(init, l, k);
        let left = extend_each(init, l);
        let right = l.map_values(|x: u64| acc.last().push(x));
        assert(extend_each(acc, l) == left + right);
        assert forall|e: int|
            0 <= e < extend_each(acc, l).len() implies (#[trigger] extend_each(acc, l)[e]).len()
                == k + 1 by {
            if e >= left.len() {
                assert(extend_each(acc, l)[e] == right[e - left.len()]);
            } else {
                assert(extend_each(acc, l)[e] == left[e]);
            }
        }
        assert(init.len() * l.len() + l.len() == acc.len() * l.len()) by (nonlinear_arith)
            requires
                init.len() + 1 == acc.len(),
        ;
    }
}

/// The product of the lengths of `lists`.
pub open spec fn count_product(lists: Seq<Seq<u64>>) -> int
    decreases lists.len(),
{
    if lists.len() == 0 {
        1
    } else {
        count_product(lists.drop_last()) * lists.last().len()
    }
}

/// Each choice of `product(lists)` takes one element of every list, and
/// there are as many choices as the product of the lists' lengths.
pub proof fn lemma_product_shape(lists: Seq<Seq<u64>>)
    ensures
        product(lists).len() == count_product(lists),
        forall|e: int|
            0 <= e < product(lists).len() ==> (#[trigger] product(lists)[e]).len() == lists.len(),
    decreases lists.len(),
{
    if lists.len() > 0 {
        lemma_product_shape(lists.drop_last());
        lemma_extend_each_len(product(lists.drop_last()), lists.last(), lists.len() - 1);
    }
}

/// A pattern one of whose slots resolves to nothing yields no choice at all.
pub proof fn lemma_empty_slot_no_choice(lists: Seq<Seq<u64>>, j: int)
    requires
        0 <= j < lists.len(),
        lists[j].len() == 0,
    ensures
        product(lists).len() == 0,
    decreases lists.len(),
{
    lemma_product_shape(lists);
    lemma_product_shape(lists.drop_last());
    let c = count_product(lists.drop_last());
    let l = lists.last().len() as int;
    assert(count_product(lists) == c * l);
    if j < lists.len() - 1 {
        assert(lists.drop_last()[j] == lists[j]);
        lemma_empty_slot_no_choice(lists.drop_last(), j);
        assert(c == 0);
    } else {
        assert(l == 0);
    }
    assert(c * l == 0) by (nonlinear_arith)
        requires
            c == 0 || l == 0,
    ;
}

fn copy_requirements(v: &Vec<String>) -> (r: Vec<String>)
    ensures
        r@ == v@,
{
    let mut out: Vec<String> = Vec::new();
    let mut i: usize = 0;
    while i < v.len()
        invariant
            0 <= i <= v@.len(),
            out@ == v@.subrange(0, i as int),
        decreases v@.len() - i,
    {
        out.push(v[i].clone());
        i = i + 1;
        assert(out@ =~= v@.subrange(0, i as int));
    }
    assert(out@ =~= v@);
    out
}

impl RecipePattern {
    pub fn new(
        input: Vec<RecipePatternComponent>,
        output: Vec<RecipePatternComponent>,
        base_time: u16,
        requirements: Vec<String>,
    ) -> (r: RecipePattern)
        ensures
            r.input@ == input@,
            r.output@ == output@,
            r.base_time == base_time,
            r.requirements@ == requirements@,
    {
        RecipePattern { input, output, base_time, requirements }
    }

    /// Resolves every slot against `manager`, then gives one recipe for each
    /// choice of one resource per slot, in lexicographic order over the slots
    /// (inputs first). A slot that resolves to nothing gives no recipe at
    /// all; a name that the catalog lacks is an error.
    pub fn into_recipes(&self, manager: &ResourceManager) -> (r: Result<Vec<Recipe>, RecipeError>)
        requires
            manager.wf(),
            self.input@.len() + self.output@.len() <= usize::MAX,
        ensures
            r is Ok <==> all_resolve(*self, manager.resources@),
            r is Err ==> r == Err::<Vec<Recipe>, RecipeError>(RecipeError::ResourceNotFound),
            r matches Ok(v) ==> {
                &&& v@.len() == product(slot_lists(*self, manager.resources@)).len()
                &&& forall|e: int|
                    0 <= e < v@.len() ==> recipe_for(
                        #[trigger] v@[e],
                        *self,
                        product(slot_lists(*self, manager.resources@))[e],
                    )
            },
    {
        let ghost res = manager.resources@;
        let m = self.input.len();
        let total = m + self.output.len();
        let mut lists: Vec<Vec<u64>> = Vec::new();
        let mut j: usize = 0;
        while j < total
            invariant
                m == self.input@.len(),
                total == slots(*self).len(),
                0 <= j <= total,
                manager.wf(),
                res == manager.resources@,
                forall|jj: int| 0 <= jj < j ==> (#[trigger] resolved(slots(*self)[jj].resource, res)) is Some,
                views(lists@) == slot_lists(*self, res).subrange(0, j as int),
            decreases total - j,
        {
            let c = if j < m {
                &self.input[j]
            } else {
                &self.output[j - m]
            };
            assert(*c == slots(*self)[j as int]);
            match resolve(&c.resource, manager) {
                Ok(ids) => {
                    let ghost prev = views(lists@);
                    lists.push(ids);
                    proof {
                        assert(views(lists@) =~= prev.push(ids@));
                        assert(views(lists@) =~= slot_lists(*self, res).subrange(0, j as int + 1));
                    }
                },
                Err(e) => {
                    return Err(e);
                },
            }
            j = j + 1;
        }
        assert(views(lists@) =~= slot_lists(*self, res));
        let choices = super_set_iterator(&lists);
        let ghost all = product(slot_lists(*self, res));
        proof {
            lemma_product_shape(slot_lists(*self, res));
        }
        let mut out: Vec<Recipe> = Vec::new();
        let mut e: usize = 0;
        while e < choices.len()
            invariant
                m == self.input@.len(),
                total == slots(*self).len(),
                views(choices@) == all,
                forall|x: int| 0 <= x < all.len() ==> (#[trigger] all[x]).len() == total,
                0 <= e <= choices@.len(),
                out@.len() == e,
                forall|x: int| 0 <= x < e ==> recipe_for(#[trigger] out@[x], *self, all[x]),
            decreases choices@.len() - e,
        {
            let choice = &choices[e];
            assert(choice@ == all[e as int]);
            let mut inputs: Vec<RecipeComponent> = Vec::new();
            let mut t: usize = 0;
            while t < m
                invariant
                    m == self.input@.len(),
                    choice@.len() == total,
                    total == m + self.output@.len(),
                    0 <= t <= m,
                    inputs@.len() == t,
                    forall|tt: int| 0 <= tt < t ==> #[trigger] inputs@[tt] == (RecipeComponent {
                        resource_id: choice@[tt],
                        quantity: self.input@[tt].quantity,
                    }),
                decreases m - t,
            {
                inputs.push(RecipeComponent::new(choice[t], self.input[t].quantity));
                t = t + 1;
            }
            let mut outputs: Vec<RecipeComponent> = Vec::new();
            let mut t: usize = 0;
            while t < self.output.len()
                invariant
                    m == self.input@.len(),
                    choice@.len() == total,
                    total == m + self.output@.len(),
                    0 <= t <= self.output@.len(),
                    outputs@.len() == t,
                    forall|tt: int| 0 <= tt < t ==> #[trigger] outputs@[tt] == (RecipeComponent {
                        resource_id: choice@[m + tt],
                        quantity: self.output@[tt].quantity,
                    }),
                decreases self.output@.len() - t,
            {
                outputs.push(RecipeComponent::new(choice[m + t], self.output[t].quantity));
                t = t + 1;
            }
            let recipe = Recipe::new(inputs, outputs, self.base_time, copy_requirements(&self.requirements));
            assert(recipe_for(recipe, *self, all[e as int]));
            out.push(recipe);
            e = e + 1;
        }
        Ok(out)
    }
}

/// A pattern whose slots all resolve, one of them a tag filter that matches
/// no resource, is expanded without error into no recipe at all.
pub proof fn lemma_unmatched_filter_no_recipes(
    p: RecipePattern,
    res: Seq<crate::production::resource::Resource>,
    j: int,
)
    requires
        all_resolve(p, res),
        0 <= j < slots(p).len(),
        slots(p)[j].resource matches ResourceSelector::Tags(tags) && matching_ids(res, tags@).len()
            == 0,
    ensures
        product(slot_lists(p, res)).len() == 0,
{
    assert(slot_lists(p, res)[j].len() == 0);
    lemma_empty_slot_no_choice(slot_lists(p, res), j);
}

proof fn lemma_extend_each_count(acc: Seq<Seq<u64>>, l: Seq<u64>)
    ensures
        extend_each(acc, l).len() == acc.len() * l.len(),
    decreases acc.len(),
{
    if acc.len() > 0 {
        lemma_extend_each_count(acc.drop_last(), l);
        assert((acc.len() - 1) * l.len() + l.len() == acc.len() * l.len()) by (nonlinear_arith);
    }
}

proof fn lemma_extend_each_index(acc: Seq<Seq<u64>>, l: Seq<u64>, a: int, b: int)
    requires
        0 <= a < acc.len(),
        0 <= b < l.len(),
    ensures
        extend_each(acc, l).len() == acc.len() * l.len(),
        0 <= a * l.len() + b < extend_each(acc, l).len(),
        extend_each(acc, l)[a * l.len() + b] == acc[a].push(l[b]),
    decreases acc.len(),
{
    let init = acc.drop_last();
    let n = l.len() as int;
    lemma_extend_each_count(acc, l);
    lemma_extend_each_count(init, l);
    assert(a * n + b < acc.len() * n) by (nonlinear_arith)
        requires
            0 <= a < acc.len(),
            0 <= b < n,
    ;
    assert(0 <= a * n) by (nonlinear_arith)
        requires
            0 <= a,
            0 <= n,
    ;
    if a < acc.len() - 1 {
        lemma_extend_each_index(init, l, a, b);
        assert(a * n + b < init.len() * n) by (nonlinear_arith)
            requires
                0 <= a < init.len(),
                0 <= b < n,
        ;
        assert(init[a] == acc[a]);
    } else {
        assert(a * n == init.len() * n);
    }
}

/// Expanding one slot with candidates `xs` and one with candidates `ys`
/// gives `|xs| * |ys|` choices, and choice `a * |ys| + b` is exactly
/// `[xs[a], ys[b]]`: every pair of candidates comes once, in lexicographic
/// order.
pub proof fn lemma_two_slot_product(xs: Seq<u64>, ys: Seq<u64>)
    ensures
        product(seq![xs, ys]).len() == xs.len() * ys.len(),
        forall|a: int, b: int|
            0 <= a < xs.len() && 0 <= b < ys.len() ==> product(seq![xs, ys])[a * ys.len() + b]
                == seq![xs[a], ys[b]],
{
    let lists = seq![xs, ys];
    assert(lists.drop_last() =~= seq![xs]);
    assert(seq![xs].drop_last() =~= Seq::<Seq<u64>>::empty());
    let first = product(seq![xs]);
    assert(product(seq![xs].drop_last()) == seq![Seq::<u64>::empty()]);
    assert(first == extend_each(seq![Seq::<u64>::empty()], xs));
    lemma_product_shape(lists);
    lemma_product_shape(seq![xs]);
    assert(count_product(seq![xs]) == xs.len()) by {
        assert(count_product(seq![xs].drop_last()) == 1);
    }
    assert(count_product(lists) == xs.len() * ys.len());
    assert forall|a: int, b: int|
        0 <= a < xs.len() && 0 <= b < ys.len() implies product(lists)[a * ys.len() + b]
            == seq![xs[a], ys[b]] by {
        lemma_extend_each_index(seq![Seq::<u64>::empty()], xs, 0, a);
        assert(first[a] == Seq::<u64>::empty().push(xs[a]));
        lemma_extend_each_index(first, ys, a, b);
        assert(first[a].push(ys[b]) =~= seq![xs[a], ys[b]]);
    }
}

} // verus!
