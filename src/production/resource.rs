use vstd::prelude::*;
use vstd::string::StringExecFns;

verus! {

/// A descriptive label of a resource, from a closed set.
#[derive(Clone, Copy, Debug, PartialEq, Eq, Structural, Hash)]
pub enum ResourceTag {
    Base,
    Metal,
    Ore,
    Ingot,
}

/// A display color with 8-bit channels.
#[derive(Clone, Copy, Debug, PartialEq, Eq, Structural)]
pub struct Rgba {
    pub r: u8,
    pub g: u8,
    pub b: u8,
    pub a: u8,
}

impl Rgba {
    pub fn white() -> (c: Rgba)
        ensures
            c == (Rgba { r: 255, g: 255, b: 255, a: 255 }),
    {
        Rgba { r: 255, g: 255, b: 255, a: 255 }
    }

    pub fn black() -> (c: Rgba)
        ensures
            c == (Rgba { r: 0, g: 0, b: 0, a: 255 }),
    {
        Rgba { r: 0, g: 0, b: 0, a: 255 }
    }
}

/// Whether `tags` holds `tag`: tags are compared as a set.
pub open spec fn has_tag(tags: Seq<ResourceTag>, tag: ResourceTag) -> bool {
    tags.contains(tag)
}

/// Whether `tags`, seen as a set, is a superset of `required`.
pub open spec fn has_all_tags(tags: Seq<ResourceTag>, required: Seq<ResourceTag>) -> bool {
    forall|t: ResourceTag| #[trigger] required.contains(t) ==> tags.contains(t)
}

/// Whether `tags` holds `tag` (executable).
pub fn seq_has_tag(tags: &[ResourceTag], tag: ResourceTag) -> (r: bool)
    ensures
        r == has_tag(tags@, tag),
{
    let mut i: usize = 0;
    while i < tags.len()
        invariant
            0 <= i <= tags@.len(),
            forall|j: int| 0 <= j < i ==> tags@[j] != tag,
        decreases tags@.len() - i,
    {
        if tags[i] == tag {
            return true;
        }
        i = i + 1;
    }
    false
}

/// Whether `tags` covers every tag of `required` (executable).
pub fn seq_has_all_tags(tags: &[ResourceTag], required: &[ResourceTag]) -> (r: bool)
    ensures
        r == has_all_tags(tags@, required@),
{
    let mut i: usize = 0;
    while i < required.len()
        invariant
            0 <= i <= required@.len(),
            forall|j: int| 0 <= j < i ==> tags@.contains(#[trigger] required@[j]),
        decreases required@.len() - i,
    {
        if !seq_has_tag(tags, required[i]) {
            assert(required@.contains(required@[i as int]));
            return false;
        }
        i = i + 1;
    }
    assert forall|t: ResourceTag| #[trigger] required@.contains(t) implies tags@.contains(t) by {
        let j = choose|j: int| 0 <= j < required@.len() && required@[j] == t;
        assert(tags@.contains(required@[j]));
    }
    true
}

/// A copy of a tag list.
pub fn copy_tags(tags: &[ResourceTag]) -> (r: Vec<ResourceTag>)
    ensures
        r@ == tags@,
{
    let mut out: Vec<ResourceTag> = Vec::new();
    let mut i: usize = 0;
    while i < tags.len()
        invariant
            0 <= i <= tags@.len(),
            out@ == tags@.subrange(0, i as int),
        decreases tags@.len() - i,
    {
        out.push(tags[i]);
        i = i + 1;
        assert(out@ =~= tags@.subrange(0, i as int));
    }
    assert(out@ =~= tags@);
    out
}

/// An item of the game. Its `id` is given by the catalog on insertion.
#[derive(Debug)]
pub struct Resource {
    pub id: u64,
    pub name: String,
    pub description: String,
    pub base_icon: String,
    pub fg_color: Rgba,
    pub bg_color: Rgba,
    pub tags: Vec<ResourceTag>,
}

impl Resource {
    /// A resource not yet in a catalog, with id 0.
    pub fn new(
        name: &str,
        description: &str,
        base_icon: &str,
        fg_color: Rgba,
        bg_color: Rgba,
        tags: &[ResourceTag],
    ) -> (r: Resource)
        ensures
            r.id == 0,
            r.name@ == name@,
            r.description@ == description@,
            r.base_icon@ == base_icon@,
            r.fg_color == fg_color,
            r.bg_color == bg_color,
            r.tags@ == tags@,
    {
        Resource {
            id: 0,
            name: name.to_owned(),
            description: description.to_owned(),
            base_icon: base_icon.to_owned(),
            fg_color,
            bg_color,
            tags: copy_tags(tags),
        }
    }

    pub fn id(&self) -> (r: u64)
        ensures
            r == self.id,
    {
        self.id
    }

    pub fn name(&self) -> (r: &String)
        ensures
            r == &self.name,
    {
        &self.name
    }

    pub fn description(&self) -> (r: &String)
        ensures
            r == &self.description,
    {
        &self.description
    }

    pub fn base_icon(&self) -> (r: &String)
        ensures
            r == &self.base_icon,
    {
        &self.base_icon
    }

    pub fn fg_color(&self) -> (r: &Rgba)
        ensures
            *r == self.fg_color,
    {
        &self.fg_color
    }

    pub fn bg_color(&self) -> (r: &Rgba)
        ensures
            *r == self.bg_color,
    {
        &self.bg_color
    }

    pub fn tags(&self) -> (r: &Vec<ResourceTag>)
        ensures
            r@ == self.tags@,
    {
        &self.tags
    }

    pub fn contains_tag(&self, tag: &ResourceTag) -> (r: bool)
        ensures
            r == has_tag(self.tags@, *tag),
    {
        seq_has_tag(self.tags.as_slice(), *tag)
    }

    pub fn contains_all_tags(&self, tags: &[ResourceTag]) -> (r: bool)
        ensures
            r == has_all_tags(self.tags@, tags@),
    {
        seq_has_all_tags(self.tags.as_slice(), tags)
    }
}


/// Why a catalog operation failed.
#[derive(Clone, Copy, Debug, PartialEq, Eq, Structural)]
pub enum ResourceError {
    /// A resource of that name is already in the catalog.
    DuplicateResourceName,
    /// The catalog holds as many resources as a `Vec` can.
    CatalogFull,
}

/// A derivation rule. A resource that carries every tag of `required_tags`
/// gives a new resource named `name_prefix + name + name_suffix`, described by
/// `description_prefix + name + description_suffix`, with the source's colors,
/// no icon, and exactly the tags `tags`.
#[derive(Debug)]
pub struct TransformRule {
    pub required_tags: Vec<ResourceTag>,
    pub name_prefix: String,
    pub name_suffix: String,
    pub description_prefix: String,
    pub description_suffix: String,
    pub tags: Vec<ResourceTag>,
}

/// Whether `rule` derives anything from `src`.
pub open spec fn applies(rule: TransformRule, src: Resource) -> bool {
    has_all_tags(src.tags@, rule.required_tags@)
}

/// The name of what `rule` derives from `src`.
pub open spec fn derived_name(rule: TransformRule, src: Resource) -> Seq<char> {
    rule.name_prefix@ + src.name@ + rule.name_suffix@
}

/// Whether `out` is what `rule` derives from `src` (its id aside).
pub open spec fn derives(rule: TransformRule, src: Resource, out: Resource) -> bool {
    &&& applies(rule, src)
    &&& out.name@ == derived_name(rule, src)
    &&& out.description@ == rule.description_prefix@ + src.name@ + rule.description_suffix@
    &&& out.base_icon@ == Seq::<char>::empty()
    &&& out.fg_color == src.fg_color
    &&& out.bg_color == src.bg_color
    &&& out.tags@ == rule.tags@
}

impl TransformRule {
    pub fn new(
        required_tags: &[ResourceTag],
        name_prefix: &str,
        name_suffix: &str,
        description_prefix: &str,
        description_suffix: &str,
        tags: &[ResourceTag],
    ) -> (r: TransformRule)
        ensures
            r.required_tags@ == required_tags@,
            r.name_prefix@ == name_prefix@,
            r.name_suffix@ == name_suffix@,
            r.description_prefix@ == description_prefix@,
            r.description_suffix@ == description_suffix@,
            r.tags@ == tags@,
    {
        TransformRule {
            required_tags: copy_tags(required_tags),
            name_prefix: name_prefix.to_owned(),
            name_suffix: name_suffix.to_owned(),
            description_prefix: description_prefix.to_owned(),
            description_suffix: description_suffix.to_owned(),
            tags: copy_tags(tags),
        }
    }

    /// What this rule derives from `src`, with id 0, if it applies.
    pub fn apply(&self, src: &Resource) -> (r: Option<Resource>)
        ensures
            r is None <==> !applies(*self, *src),
            r matches Some(out) ==> out.id == 0 && derives(*self, *src, out),
    {
        if !seq_has_all_tags(src.tags.as_slice(), self.required_tags.as_slice()) {
            return None;
        }
        let mut name = self.name_prefix.clone();
        name.append(src.name.as_str());
        name.append(self.name_suffix.as_str());
        let mut description = self.description_prefix.clone();
        description.append(src.name.as_str());
        description.append(self.description_suffix.as_str());
        let out = Resource {
            id: 0,
            name,
            description,
            base_icon: String::new(),
            fg_color: src.fg_color,
            bg_color: src.bg_color,
            tags: copy_tags(self.tags.as_slice()),
        };
        proof {
            assert(out.name@ =~= derived_name(*self, *src));
            assert(out.description@ =~= self.description_prefix@ + src.name@
                + self.description_suffix@);
        }
        Some(out)
    }
}

/// Whether some resource of `res` is named `name`.
pub open spec fn name_in(res: Seq<Resource>, name: Seq<char>) -> bool {
    exists|j: int| 0 <= j < res.len() && (#[trigger] res[j]).name@ == name
}

/// No two resources of `res` share a name.
pub open spec fn names_unique(res: Seq<Resource>) -> bool {
    forall|i: int, j: int|
        0 <= i < res.len() && 0 <= j < res.len() && i != j ==> (#[trigger] res[i]).name@
            != (#[trigger] res[j]).name@
}

/// Each resource's id is its position in `res`.
pub open spec fn ids_are_positions(res: Seq<Resource>) -> bool {
    forall|i: int| 0 <= i < res.len() ==> (#[trigger] res[i]).id == i
}

/// What rule `k` derives from resource `i`, if anything, is already in `res`.
pub open spec fn closed_at(res: Seq<Resource>, rules: Seq<TransformRule>, i: int, k: int) -> bool {
    applies(rules[k], res[i]) ==> name_in(res, derived_name(rules[k], res[i]))
}

/// Every rule has been applied to every resource from position `lo` to `hi`.
pub open spec fn closed_range(res: Seq<Resource>, rules: Seq<TransformRule>, lo: int, hi: int) -> bool {
    forall|i: int, k: int|
        lo <= i < hi && 0 <= k < rules.len() ==> #[trigger] closed_at(res, rules, i, k)
}

/// No rule applied to any resource of `res` gives a name that is not in `res`.
pub open spec fn is_closed(res: Seq<Resource>, rules: Seq<TransformRule>) -> bool {
    closed_range(res, rules, 0, res.len() as int)
}

/// Resource `j` of `res` is what some rule derives from an earlier resource.
pub open spec fn derived_at(res: Seq<Resource>, rules: Seq<TransformRule>, j: int) -> bool {
    exists|i: int, k: int|
        0 <= i < j && 0 <= k < rules.len() && #[trigger] derives(rules[k], res[i], res[j])
}

/// Every resource of `res` from position `lo` on was derived by a rule.
pub open spec fn derived_from(res: Seq<Resource>, rules: Seq<TransformRule>, lo: int) -> bool {
    forall|j: int| lo <= j < res.len() ==> #[trigger] derived_at(res, rules, j)
}

/// `res2` starts with `res`.
pub open spec fn extends(res: Seq<Resource>, res2: Seq<Resource>) -> bool {
    res.len() <= res2.len() && forall|i: int| 0 <= i < res.len() ==> #[trigger] res2[i] == res[i]
}

/// `r` with its id set to `id`.
pub open spec fn with_id(r: Resource, id: u64) -> Resource {
    Resource { id, ..r }
}

proof fn lemma_extends_keeps_facts(
    res: Seq<Resource>,
    res2: Seq<Resource>,
    rules: Seq<TransformRule>,
    hi: int,
    lo: int,
)
    requires
        extends(res, res2),
        hi <= res.len(),
    ensures
        forall|lo2: int| 0 <= lo2 && closed_range(res, rules, lo2, hi) ==> #[trigger] closed_range(res2, rules, lo2, hi),
        derived_from(res, rules, lo) ==> forall|j: int|
            lo <= j < res.len() ==> #[trigger] derived_at(res2, rules, j),
        forall|n: Seq<char>| name_in(res, n) ==> #[trigger] name_in(res2, n),
{
    assert forall|n: Seq<char>| name_in(res, n) implies #[trigger] name_in(res2, n) by {
        let j = choose|j: int| 0 <= j < res.len() && (#[trigger] res[j]).name@ == n;
        assert(res2[j] == res[j]);
    }
    assert forall|lo2: int| 0 <= lo2 && closed_range(res, rules, lo2, hi) implies #[trigger] closed_range(res2, rules, lo2, hi) by {
        assert forall|i: int, k: int|
            lo2 <= i < hi && 0 <= k < rules.len() implies #[trigger] closed_at(res2, rules, i, k) by {
            assert(closed_at(res, rules, i, k));
            assert(res2[i] == res[i]);
        }
    }
    if derived_from(res, rules, lo) {
        assert forall|j: int| lo <= j < res.len() implies #[trigger] derived_at(res2, rules, j) by {
            assert(derived_at(res, rules, j));
            let (i, k) = choose|i: int, k: int|
                0 <= i < j && 0 <= k < rules.len() && #[trigger] derives(rules[k], res[i], res[j]);
            assert(res2[i] == res[i] && res2[j] == res[j]);
            assert(derives(rules[k], res2[i], res2[j]));
        }
    }
}

/// What a resource holds, as plain values.
pub struct ResourceView {
    pub id: u64,
    pub name: Seq<char>,
    pub description: Seq<char>,
    pub base_icon: Seq<char>,
    pub fg_color: Rgba,
    pub bg_color: Rgba,
    pub tags: Seq<ResourceTag>,
}

impl View for Resource {
    type V = ResourceView;

    open spec fn view(&self) -> ResourceView {
        ResourceView {
            id: self.id,
            name: self.name@,
            description: self.description@,
            base_icon: self.base_icon@,
            fg_color: self.fg_color,
            bg_color: self.bg_color,
            tags: self.tags@,
        }
    }
}

/// The views of the resources of `res`.
pub open spec fn views_of(res: Seq<Resource>) -> Seq<ResourceView> {
    res.map_values(|r: Resource| r@)
}

/// Whether some resource of `vs` is named `name`.
pub open spec fn view_name_in(vs: Seq<ResourceView>, name: Seq<char>) -> bool {
    exists|j: int| 0 <= j < vs.len() && (#[trigger] vs[j]).name == name
}

/// What `rule` derives from `src`, under the id `id`.
pub open spec fn derived_view(rule: TransformRule, src: ResourceView, id: u64) -> ResourceView {
    ResourceView {
        id,
        name: rule.name_prefix@ + src.name + rule.name_suffix@,
        description: rule.description_prefix@ + src.name + rule.description_suffix@,
        base_icon: Seq::empty(),
        fg_color: src.fg_color,
        bg_color: src.bg_color,
        tags: rule.tags@,
    }
}

/// The catalog that breadth-first closure makes of `vs`, resuming at rule
/// `k` of resource `i`: each resource in catalog order gets every rule in
/// registration order, and each derived resource whose name is new is
/// appended under the next id. It stops early when the catalog has
/// `usize::MAX` resources and one more is due.
pub open spec fn closure_run(vs: Seq<ResourceView>, rules: Seq<TransformRule>, i: int, k: int) -> Seq<
    ResourceView,
>
    decreases 2 * (usize::MAX as int) - vs.len() - i, rules.len() - k,
{
    if i < 0 || k < 0 || vs.len() > usize::MAX || i >= vs.len() {
        vs
    } else if k >= rules.len() {
        closure_run(vs, rules, i + 1, 0)
    } else if has_all_tags(vs[i].tags, rules[k].required_tags@) && !view_name_in(
        vs,
        rules[k].name_prefix@ + vs[i].name + rules[k].name_suffix@,
    ) {
        if vs.len() == usize::MAX {
            vs
        } else {
            closure_run(vs.push(derived_view(rules[k], vs[i], vs.len() as u64)), rules, i, k + 1)
        }
    } else {
        closure_run(vs, rules, i, k + 1)
    }
}

proof fn lemma_view_name_in(res: Seq<Resource>, name: Seq<char>)
    ensures
        name_in(res, name) == view_name_in(views_of(res), name),
{
    if name_in(res, name) {
        let j = choose|j: int| 0 <= j < res.len() && (#[trigger] res[j]).name@ == name;
        assert(views_of(res)[j].name == name);
    }
    if view_name_in(views_of(res), name) {
        let j = choose|j: int| 0 <= j < views_of(res).len() && (#[trigger] views_of(res)[j]).name == name;
        assert(res[j].name@ == name);
    }
}

/// The resource catalog: every resource it holds, in insertion order (a
/// resource's id is its position), and the derivation rules in registration
/// order.
#[derive(Debug)]
pub struct ResourceManager {
    pub resources: Vec<Resource>,
    pub transformations: Vec<TransformRule>,
}

impl ResourceManager {
    /// Names are unique and ids are positions.
    pub open spec fn wf(&self) -> bool {
        names_unique(self.resources@) && ids_are_positions(self.resources@)
    }

    /// No rule derives a resource that the catalog lacks.
    pub open spec fn closed(&self) -> bool {
        is_closed(self.resources@, self.transformations@)
    }

    pub fn new() -> (r: ResourceManager)
        ensures
            r.wf(),
            r.closed(),
            r.resources@.len() == 0,
            r.transformations@.len() == 0,
    {
        ResourceManager { resources: Vec::new(), transformations: Vec::new() }
    }

    /// The position of the resource named `name`.
    fn find_by_name(&self, name: &String) -> (r: Option<usize>)
        ensures
            r is None <==> !name_in(self.resources@, name@),
            r matches Some(i) ==> i < self.resources@.len() && self.resources@[i as int].name@
                == name@,
    {
        let mut i: usize = 0;
        while i < self.resources.len()
            invariant
                0 <= i <= self.resources@.len(),
                forall|j: int| 0 <= j < i ==> (#[trigger] self.resources@[j]).name@ != name@,
            decreases self.resources@.len() - i,
        {
            if self.resources[i].name == *name {
                return Some(i);
            }
            i = i + 1;
        }
        None
    }

    /// Applies every rule, in registration order, to each resource from
    /// position `start` on, in catalog order, adding each derived resource
    /// whose name is new at the end, until no resource is left to process.
    fn close_from(&mut self, start: usize) -> (r: Result<(), ResourceError>)
        requires
            old(self).wf(),
            start <= old(self).resources@.len(),
        ensures
            final(self).wf(),
            final(self).transformations@ == old(self).transformations@,
            extends(old(self).resources@, final(self).resources@),
            derived_from(final(self).resources@, final(self).transformations@,
                old(self).resources@.len() as int),
            r is Ok ==> closed_range(final(self).resources@, final(self).transformations@,
                start as int, final(self).resources@.len() as int),
            closed_range(old(self).resources@, old(self).transformations@, 0, start as int)
                ==> closed_range(final(self).resources@, final(self).transformations@, 0, start as int),
            r is Err ==> r == Err::<(), ResourceError>(ResourceError::CatalogFull)
                && final(self).resources@.len() == usize::MAX,
            views_of(final(self).resources@) == closure_run(
                views_of(old(self).resources@),
                old(self).transformations@,
                start as int,
                0,
            ),
    {
        let ghost res0 = self.resources@;
        let ghost rules = self.transformations@;
        let len0: usize = self.resources.len();
        assert(res0.len() == len0);
        let mut i: usize = start;
        while i < self.resources.len()
            invariant
                res0 == old(self).resources@,
                start <= res0.len(),
                rules == old(self).transformations@,
                self.wf(),
                self.transformations@ == rules,
                extends(res0, self.resources@),
                derived_from(self.resources@, rules, res0.len() as int),
                closed_range(self.resources@, rules, start as int, i as int),
                start <= i <= self.resources@.len(),
                self.resources@.len() <= usize::MAX,
                closure_run(views_of(self.resources@), rules, i as int, 0) == closure_run(
                    views_of(res0),
                    rules,
                    start as int,
                    0,
                ),
            decreases 2 * (usize::MAX as int) - self.resources@.len() - i,
        {
            let ghost len_i = self.resources@.len();
            let mut k: usize = 0;
            while k < self.transformations.len()
                invariant
                    res0 == old(self).resources@,
                    start <= res0.len(),
                    rules == old(self).transformations@,
                    self.resources@.len() >= len_i,
                    self.resources@.len() <= usize::MAX,
                    self.wf(),
                    self.transformations@ == rules,
                    extends(res0, self.resources@),
                    derived_from(self.resources@, rules, res0.len() as int),
                    closed_range(self.resources@, rules, start as int, i as int),
                    i < self.resources@.len(),
                    0 <= k <= rules.len(),
                    forall|kk: int| 0 <= kk < k ==> #[trigger] closed_at(self.resources@, rules, i as int, kk),
                    closure_run(views_of(self.resources@), rules, i as int, k as int) == closure_run(
                        views_of(res0),
                        rules,
                        start as int,
                        0,
                    ),
                decreases 2 * (usize::MAX as int) - self.resources@.len() + rules.len() - k,
            {
                let ghost vs = views_of(self.resources@);
                proof {
                    assert(vs[i as int] == self.resources@[i as int]@);
                    lemma_view_name_in(self.resources@, derived_name(rules[k as int], self.resources@[i as int]));
                }
                let derived = self.transformations[k].apply(&self.resources[i]);
                match derived {
                    None => {},
                    Some(mut d) => {
                        let found = self.find_by_name(&d.name);
                        if found.is_none() {
                            if self.resources.len() == usize::MAX {
                                proof {
                                    lemma_extends_keeps_facts(res0, self.resources@, rules,
                                        start as int, res0.len() as int);
                                    assert(closure_run(vs, rules, i as int, k as int) == vs);
                                }
                                return Err(ResourceError::CatalogFull);
                            }
                            let ghost before = self.resources@;
                            let n = self.resources.len();
                            d.id = n as u64;
                            self.resources.push(d);
                            proof {
                                let after = self.resources@;
                                assert(views_of(after) =~= vs.push(
                                    derived_view(rules[k as int], vs[i as int], n as u64),
                                ));
                                assert(extends(before, after));
                                lemma_extends_keeps_facts(before, after, rules, i as int,
                                    res0.len() as int);
                                assert(after[n as int] == d);
                                assert forall|a: int, b: int|
                                    0 <= a < after.len() && 0 <= b < after.len() && a != b
                                        implies (#[trigger] after[a]).name@ != (#[trigger] after[b]).name@ by {
                                    if a < n && b < n {
                                        assert(after[a] == before[a] && after[b] == before[b]);
                                    } else if a < n {
                                        assert(after[a] == before[a]);
                                    } else if b < n {
                                        assert(after[b] == before[b]);
                                    }
                                }
                                assert forall|a: int| 0 <= a < after.len() implies (#[trigger] after[a]).id == a by {
                                    if a < n {
                                        assert(after[a] == before[a]);
                                    }
                                }
                                assert(derives(rules[k as int], after[i as int], after[n as int]));
                                assert(derived_at(after, rules, n as int));
                                assert forall|j: int| res0.len() <= j < after.len() implies #[trigger] derived_at(after, rules, j) by {
                                    if j < n {
                                        assert(derived_at(before, rules, j));
                                    }
                                }
                                assert(extends(res0, after));
                                assert forall|kk: int| 0 <= kk < k + 1 implies #[trigger] closed_at(after, rules, i as int, kk) by {
                                    if kk < k {
                                        assert(closed_at(before, rules, i as int, kk));
                                        assert(after[i as int] == before[i as int]);
                                    } else {
                                        assert(after[n as int].name@ == derived_name(rules[k as int], after[i as int]));
                                    }
                                }
                            }
                        } else {
                            proof {
                                let j = found->Some_0;
                                assert(self.resources@[j as int].name@ == derived_name(rules[k as int], self.resources@[i as int]));
                                assert(closed_at(self.resources@, rules, i as int, k as int));
                            }
                        }
                    },
                }
                k = k + 1;
            }
            proof {
                assert(closure_run(views_of(self.resources@), rules, i as int, k as int)
                    == closure_run(views_of(self.resources@), rules, i as int + 1, 0));
                assert forall|a: int, kk: int|
                    start <= a < i + 1 && 0 <= kk < rules.len() implies #[trigger] closed_at(self.resources@, rules, a, kk) by {
                    if a < i {
                        assert(closed_range(self.resources@, rules, start as int, i as int));
                    }
                }
            }
            i = i + 1;
        }
        proof {
            lemma_extends_keeps_facts(res0, self.resources@, rules, start as int, res0.len() as int);
            assert(closure_run(views_of(self.resources@), rules, i as int, 0) == views_of(self.resources@));
        }
        Ok(())
    }

    /// Inserts `resource` under the next id, then adds, breadth first, what
    /// every rule derives from it and from what was derived in turn. A
    /// derived name that is already present is not added again.
    pub fn add_resource(&mut self, resource: Resource) -> (r: Result<u64, ResourceError>)
        requires
            old(self).wf(),
        ensures
            final(self).wf(),
            final(self).transformations@ == old(self).transformations@,
            r == Err::<u64, ResourceError>(ResourceError::DuplicateResourceName) <==> name_in(
                old(self).resources@,
                resource.name@,
            ),
            r == Err::<u64, ResourceError>(ResourceError::DuplicateResourceName)
                ==> final(self).resources@ == old(self).resources@,
            r == Err::<u64, ResourceError>(ResourceError::CatalogFull)
                ==> final(self).resources@.len() == usize::MAX,
            r is Ok ==> r == Ok::<u64, ResourceError>(old(self).resources@.len() as u64)
                && old(self).resources@.len() < usize::MAX,
            !name_in(old(self).resources@, resource.name@) && old(self).resources@.len()
                < usize::MAX ==> {
                &&& final(self).resources@.len() > old(self).resources@.len()
                &&& final(self).resources@[old(self).resources@.len() as int] == with_id(
                    resource,
                    old(self).resources@.len() as u64,
                )
                &&& derived_from(
                    final(self).resources@,
                    final(self).transformations@,
                    old(self).resources@.len() + 1 as int,
                )
            },
            extends(old(self).resources@, final(self).resources@),
            r is Ok ==> closed_range(
                final(self).resources@,
                final(self).transformations@,
                old(self).resources@.len() as int,
                final(self).resources@.len() as int,
            ),
            r is Ok && old(self).closed() ==> final(self).closed(),
            !name_in(old(self).resources@, resource.name@) && old(self).resources@.len()
                < usize::MAX ==> views_of(final(self).resources@) == closure_run(
                views_of(old(self).resources@).push(
                    with_id(resource, old(self).resources@.len() as u64)@,
                ),
                old(self).transformations@,
                old(self).resources@.len() as int,
                0,
            ),
    {
        if self.find_by_name(&resource.name).is_some() {
            return Err(ResourceError::DuplicateResourceName);
        }
        if self.resources.len() == usize::MAX {
            return Err(ResourceError::CatalogFull);
        }
        let ghost before = self.resources@;
        let ghost rules = self.transformations@;
        let n = self.resources.len();
        let mut resource = resource;
        let ghost given = resource;
        resource.id = n as u64;
        assert(resource == with_id(given, n as u64));
        self.resources.push(resource);
        proof {
            let after = self.resources@;
            assert(extends(before, after));
            lemma_extends_keeps_facts(before, after, rules, before.len() as int, 0);
            assert forall|a: int, b: int|
                0 <= a < after.len() && 0 <= b < after.len() && a != b implies (#[trigger] after[a]).name@
                    != (#[trigger] after[b]).name@ by {
                if a < n && b < n {
                    assert(after[a] == before[a] && after[b] == before[b]);
                } else if a < n {
                    assert(after[a] == before[a]);
                } else if b < n {
                    assert(after[b] == before[b]);
                }
            }
            assert forall|a: int| 0 <= a < after.len() implies (#[trigger] after[a]).id == a by {
                if a < n {
                    assert(after[a] == before[a]);
                }
            }
        }
        let ghost mid = self.resources@;
        assert(views_of(mid) =~= views_of(before).push(with_id(given, n as u64)@));
        let closed = self.close_from(n);
        proof {
            assert(extends(mid, self.resources@));
            assert(self.resources@[n as int] == mid[n as int]);
            assert(extends(before, self.resources@)) by {
                assert forall|a: int| 0 <= a < before.len() implies #[trigger] self.resources@[a]
                    == before[a] by {
                    assert(self.resources@[a] == mid[a]);
                }
            }
        }
        proof {
            if closed is Ok && is_closed(before, rules) {
                lemma_extends_keeps_facts(before, mid, rules, n as int, 0);
                let fin = self.resources@;
                assert forall|a: int, kk: int|
                    0 <= a < fin.len() && 0 <= kk < rules.len() implies #[trigger] closed_at(fin, rules, a, kk) by {
                    if a < n {
                        assert(closed_range(fin, rules, 0, n as int));
                    } else {
                        assert(closed_range(fin, rules, n as int, fin.len() as int));
                    }
                }
            }
        }
        match closed {
            Ok(()) => Ok(n as u64),
            Err(e) => Err(e),
        }
    }

    /// Appends `rule` to the rules, then applies every rule to every resource
    /// of the catalog, old and derived, until the catalog is closed.
    pub fn add_processed_transformer(&mut self, rule: TransformRule) -> (r: Result<(), ResourceError>)
        requires
            old(self).wf(),
        ensures
            final(self).wf(),
            final(self).transformations@ == old(self).transformations@.push(rule),
            extends(old(self).resources@, final(self).resources@),
            derived_from(
                final(self).resources@,
                final(self).transformations@,
                old(self).resources@.len() as int,
            ),
            r is Ok ==> final(self).closed(),
            r is Err ==> r == Err::<(), ResourceError>(ResourceError::CatalogFull)
                && final(self).resources@.len() == usize::MAX,
            views_of(final(self).resources@) == closure_run(
                views_of(old(self).resources@),
                old(self).transformations@.push(rule),
                0,
                0,
            ),
    {
        self.transformations.push(rule);
        self.close_from(0)
    }

    /// Every resource of the catalog, in id order.
    pub fn resources(&self) -> (r: &Vec<Resource>)
        ensures
            r@ == self.resources@,
    {
        &self.resources
    }

    pub fn resource_by_name(&self, name: &str) -> (r: Option<&Resource>)
        requires
            self.wf(),
        ensures
            r is Some <==> name_in(self.resources@, name@),
            r matches Some(x) ==> x.name@ == name@ && x.id < self.resources@.len()
                && self.resources@[x.id as int] == *x,
    {
        let key = name.to_owned();
        match self.find_by_name(&key) {
            Some(i) => Some(&self.resources[i]),
            None => None,
        }
    }

    pub fn resource_by_id(&self, id: u64) -> (r: Option<&Resource>)
        requires
            self.wf(),
        ensures
            r is Some <==> id < self.resources@.len(),
            r matches Some(x) ==> *x == self.resources@[id as int],
    {
        if id < self.resources.len() as u64 {
            Some(&self.resources[id as usize])
        } else {
            None
        }
    }

    pub fn resource_id_by_name(&self, name: &str) -> (r: Option<u64>)
        requires
            self.wf(),
        ensures
            r is Some <==> name_in(self.resources@, name@),
            r matches Some(id) ==> id < self.resources@.len() && self.resources@[id as int].name@
                == name@,
    {
        match self.resource_by_name(name) {
            Some(res) => Some(res.id),
            None => None,
        }
    }

    /// The ids of the resources that carry every tag of `tags`, in id order.
    pub fn ids_with_tags(&self, tags: &[ResourceTag]) -> (r: Vec<u64>)
        requires
            self.wf(),
        ensures
            r@ == matching_ids(self.resources@, tags@),
    {
        let mut out: Vec<u64> = Vec::new();
        let mut i: usize = 0;
        while i < self.resources.len()
            invariant
                0 <= i <= self.resources@.len(),
                out@ == matching_ids(self.resources@.subrange(0, i as int), tags@),
            decreases self.resources@.len() - i,
        {
            let ghost sub = self.resources@.subrange(0, i as int + 1);
            assert(sub.drop_last() =~= self.resources@.subrange(0, i as int));
            assert(sub.last() == self.resources@[i as int]);
            if self.resources[i].contains_all_tags(tags) {
                out.push(self.resources[i].id);
            }
            i = i + 1;
        }
        assert(self.resources@.subrange(0, i as int) =~= self.resources@);
        out
    }

    /// The resources that carry every tag of `tags`, in id order. An empty
    /// `tags` gives every resource.
    pub fn resources_with_tags(&self, tags: &[ResourceTag]) -> (r: Vec<&Resource>)
        requires
            self.wf(),
        ensures
            r@.len() == matching_ids(self.resources@, tags@).len(),
            forall|j: int|
                0 <= j < r@.len() ==> *r@[j] == self.resources@[matching_ids(
                    self.resources@,
                    tags@,
                )[j] as int],
    {
        let mut out: Vec<&Resource> = Vec::new();
        let mut i: usize = 0;
        while i < self.resources.len()
            invariant
                self.wf(),
                0 <= i <= self.resources@.len(),
                out@.len() == matching_ids(self.resources@.subrange(0, i as int), tags@).len(),
                forall|j: int|
                    0 <= j < out@.len() ==> *out@[j] == self.resources@[matching_ids(
                        self.resources@.subrange(0, i as int),
                        tags@,
                    )[j] as int],
            decreases self.resources@.len() - i,
        {
            let ghost sub = self.resources@.subrange(0, i as int + 1);
            assert(sub.drop_last() =~= self.resources@.subrange(0, i as int));
            assert(sub.last() == self.resources@[i as int]);
            if self.resources[i].contains_all_tags(tags) {
                out.push(&self.resources[i]);
            }
            i = i + 1;
        }
        assert(self.resources@.subrange(0, i as int) =~= self.resources@);
        out
    }

    /// The resources that carry `tag`, in id order.
    pub fn resources_with_tag(&self, tag: &ResourceTag) -> (r: Vec<&Resource>)
        requires
            self.wf(),
        ensures
            r@.len() == matching_ids(self.resources@, seq![*tag]).len(),
            forall|j: int|
                0 <= j < r@.len() ==> *r@[j] == self.resources@[matching_ids(
                    self.resources@,
                    seq![*tag],
                )[j] as int],
    {
        let wanted: Vec<ResourceTag> = vec![*tag];
        assert(wanted@ =~= seq![*tag]);
        self.resources_with_tags(wanted.as_slice())
    }
}

/// The ids of the resources of `res` whose tags cover `required`, in order.
pub open spec fn matching_ids(res: Seq<Resource>, required: Seq<ResourceTag>) -> Seq<u64>
    decreases res.len(),
{
    if res.len() == 0 {
        Seq::empty()
    } else {
        let rest = matching_ids(res.drop_last(), required);
        if has_all_tags(res.last().tags@, required) {
            rest.push(res.last().id)
        } else {
            rest
        }
    }
}

/// A tag query on a catalog holds exactly the ids of the resources whose tag
/// set is a superset of the query, each once, in increasing order, whatever
/// order they were inserted in.
pub proof fn lemma_matching_ids_exact(res: Seq<Resource>, required: Seq<ResourceTag>)
    requires
        ids_are_positions(res),
    ensures
        forall|j: int|
            0 <= j < res.len() ==> (matching_ids(res, required).contains(j as u64) <==> has_all_tags(
                #[trigger] res[j].tags@,
                required,
            )),
        forall|a: int|
            0 <= a < matching_ids(res, required).len() ==> #[trigger] matching_ids(
                res,
                required,
            )[a] < res.len(),
        forall|a: int, b: int|
            0 <= a < b < matching_ids(res, required).len() ==> #[trigger] matching_ids(
                res,
                required,
            )[a] < #[trigger] matching_ids(res, required)[b],
    decreases res.len(),
{
    if res.len() > 0 {
        let init = res.drop_last();
        assert forall|i: int| 0 <= i < init.len() implies (#[trigger] init[i]).id == i by {
            assert(init[i] == res[i]);
        }
        lemma_matching_ids_exact(init, required);
        let rest = matching_ids(init, required);
        let n = res.len() - 1;
        assert(res.last().id == n);
        assert forall|j: int|
            0 <= j < res.len() implies (matching_ids(res, required).contains(j as u64) <==> has_all_tags(
                #[trigger] res[j].tags@,
                required,
            )) by {
            if j < n {
                assert(init[j] == res[j]);
                if has_all_tags(res.last().tags@, required) {
                    assert(matching_ids(res, required) == rest.push(n as u64));
                    if rest.contains(j as u64) {
                        let w = choose|w: int| 0 <= w < rest.len() && rest[w] == j as u64;
                        assert(rest.push(n as u64)[w] == j as u64);
                    }
                    let pushed = rest.push(n as u64);
                    if pushed.contains(j as u64) {
                        let w = choose|w: int| 0 <= w < pushed.len() && pushed[w] == j as u64;
                        if w < rest.len() {
                            assert(rest[w] == j as u64);
                        }
                    }
                }
            } else {
                if has_all_tags(res.last().tags@, required) {
                    assert(rest.push(n as u64)[rest.len() as int] == n as u64);
                } else {
                    if rest.contains(j as u64) {
                        let w = choose|w: int| 0 <= w < rest.len() && rest[w] == j as u64;
                        assert(rest[w] < init.len());
                    }
                }
            }
        }
    }
}

/// `rule` turns a resource tagged Base and Metal into one named
/// `name + name_suffix`, described by `description_prefix + name +
/// description_suffix`, tagged `tags`.
pub open spec fn is_metal_rule(
    rule: TransformRule,
    name_suffix: Seq<char>,
    description_prefix: Seq<char>,
    description_suffix: Seq<char>,
    tags: Seq<ResourceTag>,
) -> bool {
    &&& rule.required_tags@ == seq![ResourceTag::Base, ResourceTag::Metal]
    &&& rule.name_prefix@ == Seq::<char>::empty()
    &&& rule.name_suffix@ == name_suffix
    &&& rule.description_prefix@ == description_prefix
    &&& rule.description_suffix@ == description_suffix
    &&& rule.tags@ == tags
}

proof fn lemma_extends_trans(a: Seq<Resource>, b: Seq<Resource>, c: Seq<Resource>)
    requires
        extends(a, b),
        extends(b, c),
    ensures
        extends(a, c),
{
    assert forall|i: int| 0 <= i < a.len() implies #[trigger] c[i] == a[i] by {
        assert(c[i] == b[i]);
    }
}

/// Adds a base metal resource named `name`.
fn add_base_metal(manager: &mut ResourceManager, name: &str) -> (r: Result<u64, ResourceError>)
    requires
        old(manager).wf(),
    ensures
        final(manager).wf(),
        final(manager).transformations@ == old(manager).transformations@,
        extends(old(manager).resources@, final(manager).resources@),
        r == Err::<u64, ResourceError>(ResourceError::DuplicateResourceName) <==> name_in(
            old(manager).resources@,
            name@,
        ),
        r is Ok ==> name_in(final(manager).resources@, name@),
        old(manager).transformations@.len() == 0 && old(manager).resources@.len() + 1 < usize::MAX
            ==> (r is Ok <==> !name_in(old(manager).resources@, name@)) && (r is Ok
            ==> final(manager).resources@ == old(manager).resources@.push(
            final(manager).resources@.last(),
        ) && final(manager).resources@.last().name@ == name@
            && final(manager).resources@.last().tags@ == seq![ResourceTag::Metal, ResourceTag::Base]),
{
    let tags = [ResourceTag::Metal, ResourceTag::Base];
    assert(tags@ =~= seq![ResourceTag::Metal, ResourceTag::Base]);
    let resource = Resource::new(name, "Fe", "", Rgba::white(), Rgba::black(), &tags);
    let ghost before = manager.resources@;
    let r = manager.add_resource(resource);
    proof {
        let after = manager.resources@;
        if r is Ok {
            assert(after[before.len() as int].name@ == name@);
        }
        if manager.transformations@.len() == 0 && before.len() + 1 < usize::MAX && !name_in(
            before,
            name@,
        ) {
            if after.len() > before.len() + 1 {
                // no rule is registered, so nothing can have been derived
                assert(derived_at(after, manager.transformations@, before.len() + 1 as int));
            }
            if let Err(e) = r {
                match e {
                    ResourceError::DuplicateResourceName => {},
                    ResourceError::CatalogFull => {},
                }
            }
            assert(after =~= before.push(after.last()));
        }
    }
    r
}

/// The names of the resources that setup makes: the three base metals and
/// their Ingot, Plate, Ore and Wire forms.
pub open spec fn setup_names() -> Seq<Seq<char>> {
    let metals = seq!["Iron"@, "Copper"@, "Gold"@];
    let forms = seq![" Ingot"@, " Plate"@, " Ore"@, " Wire"@];
    metals + Seq::new(12, |x: int| metals[x / 4] + forms[x % 4])
}

/// A rule of setup: it needs Base and Metal, adds one of the four form
/// suffixes, and never gives the Base tag.
spec fn is_setup_rule(rule: TransformRule) -> bool {
    &&& rule.required_tags@ == seq![ResourceTag::Base, ResourceTag::Metal]
    &&& rule.name_prefix@ == Seq::<char>::empty()
    &&& seq![" Ingot"@, " Plate"@, " Ore"@, " Wire"@].contains(rule.name_suffix@)
    &&& !rule.tags@.contains(ResourceTag::Base)
}

/// The first three resources are the base metals; every other one lacks the
/// Base tag and bears one of the setup names.
spec fn setup_shape(res: Seq<Resource>) -> bool {
    &&& res.len() >= 3
    &&& res[0].name@ == "Iron"@ && res[1].name@ == "Copper"@ && res[2].name@ == "Gold"@
    &&& forall|j: int|
        3 <= j < res.len() ==> !(#[trigger] res[j]).tags@.contains(ResourceTag::Base)
            && setup_names().contains(res[j].name@)
}

proof fn lemma_setup_step(prev: Seq<Resource>, fin: Seq<Resource>, rules: Seq<TransformRule>)
    requires
        setup_shape(prev),
        extends(prev, fin),
        derived_from(fin, rules, prev.len() as int),
        forall|k: int| 0 <= k < rules.len() ==> is_setup_rule(#[trigger] rules[k]),
    ensures
        setup_shape(fin),
{
    assert(fin[0] == prev[0] && fin[1] == prev[1] && fin[2] == prev[2]);
    assert forall|j: int| 3 <= j < fin.len() implies !(#[trigger] fin[j]).tags@.contains(
        ResourceTag::Base,
    ) && setup_names().contains(fin[j].name@) by {
        if j < prev.len() {
            assert(fin[j] == prev[j]);
        } else {
            assert(derived_at(fin, rules, j));
            let (i, k) = choose|i: int, k: int|
                0 <= i < j && 0 <= k < rules.len() && #[trigger] derives(rules[k], fin[i], fin[j]);
            assert(is_setup_rule(rules[k]));
            assert(rules[k].required_tags@.contains(ResourceTag::Base)) by {
                assert(rules[k].required_tags@[0] == ResourceTag::Base);
            }
            assert(fin[i].tags@.contains(ResourceTag::Base));
            if i >= 3 {
                if i < prev.len() {
                    assert(fin[i] == prev[i]);
                } else {
                    assert(derived_at(fin, rules, i));
                    let (i2, k2) = choose|i2: int, k2: int|
                        0 <= i2 < i && 0 <= k2 < rules.len() && #[trigger] derives(
                            rules[k2],
                            fin[i2],
                            fin[i],
                        );
                    assert(is_setup_rule(rules[k2]));
                }
            }
            let forms = seq![" Ingot"@, " Plate"@, " Ore"@, " Wire"@];
            let f = choose|f: int| 0 <= f < 4 && forms[f] == rules[k].name_suffix@;
            assert(fin[j].name@ =~= fin[i].name@ + rules[k].name_suffix@);
            let x = i * 4 + f;
            assert(x / 4 == i && x % 4 == f);
            assert(setup_names()[3 + x] == fin[j].name@);
        }
    }
}

proof fn lemma_setup_bound(res: Seq<Resource>)
    requires
        setup_shape(res),
        names_unique(res),
    ensures
        res.len() <= 15,
{
    broadcast use vstd::seq_lib::seq_to_set_is_finite;
    let ns = res.map_values(|r: Resource| r.name@);
    assert(ns.no_duplicates()) by {
        assert forall|a: int, b: int| 0 <= a < ns.len() && 0 <= b < ns.len() && a != b implies ns[a]
            != ns[b] by {
            assert(res[a].name@ != res[b].name@);
        }
    }
    ns.unique_seq_to_set();
    assert(ns.to_set().subset_of(setup_names().to_set())) by {
        assert forall|n: Seq<char>| ns.to_set().contains(n) implies setup_names().to_set().contains(n) by {
            let j = choose|j: int| 0 <= j < ns.len() && ns[j] == n;
            if j >= 3 {
                assert(setup_names().contains(res[j].name@));
            } else if j == 0 {
                assert(setup_names()[0] == n);
            } else if j == 1 {
                assert(setup_names()[1] == n);
            } else {
                assert(setup_names()[2] == n);
            }
        }
    }
    setup_names().lemma_cardinality_of_set();
    vstd::set_lib::lemma_len_subset(ns.to_set(), setup_names().to_set());
}

/// Adds the base metals Iron, Copper and Gold, then registers the rules that
/// give each base metal its Ingot, Plate, Ore and Wire forms. The first error
/// of these steps is passed back.
pub fn setup_resource_manager(manager: &mut ResourceManager) -> (r: Result<(), ResourceError>)
    requires
        old(manager).wf(),
    ensures
        final(manager).wf(),
        extends(old(manager).resources@, final(manager).resources@),
        name_in(old(manager).resources@, "Iron"@) ==> r == Err::<(), ResourceError>(
            ResourceError::DuplicateResourceName,
        ),
        old(manager).resources@.len() == 0 && old(manager).transformations@.len() == 0 ==> {
            &&& r is Ok
            &&& final(manager).resources@.len() <= 15
            &&& forall|n: Seq<char>| name_in(final(manager).resources@, n) <==> setup_names().contains(n)
            &&& final(manager).resources@.len() >= 3
            &&& final(manager).resources@[0].name@ == "Iron"@
            &&& final(manager).resources@[1].name@ == "Copper"@
            &&& final(manager).resources@[2].name@ == "Gold"@
        },
        r is Ok ==> {
            let res = final(manager).resources@;
            let rules = final(manager).transformations@;
            let n = old(manager).transformations@.len() as int;
            &&& final(manager).closed()
            &&& name_in(res, "Iron"@) && name_in(res, "Copper"@) && name_in(res, "Gold"@)
            &&& rules.len() == n + 4
            &&& rules.subrange(0, n) == old(manager).transformations@
            &&& is_metal_rule(rules[n], " Ingot"@, "A pure form of "@, " in a convenient bar form"@,
                seq![ResourceTag::Metal, ResourceTag::Ingot])
            &&& is_metal_rule(rules[n + 1], " Plate"@, ""@, " flattened to the MAXIMUM extent"@,
                seq![ResourceTag::Metal])
            &&& is_metal_rule(rules[n + 2], " Ore"@, "The ore form of "@, ""@,
                seq![ResourceTag::Metal, ResourceTag::Ore])
            &&& is_metal_rule(rules[n + 3], " Wire"@, ""@, " thin and noodly, just the way I like it"@,
                seq![ResourceTag::Metal])
        },
{
    proof {
        reveal_strlit("Iron");
        reveal_strlit("Copper");
        reveal_strlit("Gold");
    }
    let ghost r0 = manager.resources@;
    let ghost rules0 = manager.transformations@;
    let ghost fresh = r0.len() == 0 && rules0.len() == 0;
    let a = add_base_metal(manager, "Iron");
    let ghost r1 = manager.resources@;
    proof {
        if fresh {
            assert(!name_in(r0, "Iron"@));
            assert(a is Ok);
            assert(!name_in(r1, "Copper"@)) by {
                if name_in(r1, "Copper"@) {
                    assert(r1[0].name@ == "Iron"@);
                    assert(r1[0].name@.len() != "Copper"@.len());
                }
            }
        }
    }
    if let Err(e) = a {
        return Err(e);
    }
    let b = add_base_metal(manager, "Copper");
    let ghost r2 = manager.resources@;
    proof {
        if fresh {
            assert(b is Ok);
            assert(r2[0] == r1[0]);
            assert(!name_in(r2, "Gold"@)) by {
                if name_in(r2, "Gold"@) {
                    let j = choose|j: int| 0 <= j < r2.len() && (#[trigger] r2[j]).name@ == "Gold"@;
                    if j == 0 {
                        assert(r2[0].name@[0] != "Gold"@[0]);
                    } else {
                        assert(r2[1].name@.len() != "Gold"@.len());
                    }
                }
            }
        }
    }
    if let Err(e) = b {
        return Err(e);
    }
    let c = add_base_metal(manager, "Gold");
    let ghost r3 = manager.resources@;
    proof {
        if fresh {
            assert(c is Ok);
            assert(r3[0] == r2[0] && r3[1] == r2[1]);
        }
        lemma_extends_trans(r0, r1, r2);
        lemma_extends_trans(r0, r2, r3);
        lemma_extends_keeps_facts(r1, r3, rules0, 0, 0);
        lemma_extends_trans(r1, r2, r3);
        lemma_extends_keeps_facts(r2, r3, rules0, 0, 0);
    }
    if let Err(e) = c {
        return Err(e);
    }
    let base_metal = [ResourceTag::Base, ResourceTag::Metal];
    let ingot_tags = [ResourceTag::Metal, ResourceTag::Ingot];
    let metal_tags = [ResourceTag::Metal];
    let ore_tags = [ResourceTag::Metal, ResourceTag::Ore];
    assert(base_metal@ =~= seq![ResourceTag::Base, ResourceTag::Metal]);
    assert(ingot_tags@ =~= seq![ResourceTag::Metal, ResourceTag::Ingot]);
    assert(metal_tags@ =~= seq![ResourceTag::Metal]);
    assert(ore_tags@ =~= seq![ResourceTag::Metal, ResourceTag::Ore]);
    proof {
        reveal_strlit("");
        reveal_strlit(" Ingot");
        reveal_strlit(" Plate");
        reveal_strlit(" Ore");
        reveal_strlit(" Wire");
    }
    let rule = TransformRule::new(&base_metal, "", " Ingot", "A pure form of ",
        " in a convenient bar form", &ingot_tags);
    assert(rule.required_tags@ == seq![ResourceTag::Base, ResourceTag::Metal]);
    assert(rule.name_prefix@ == Seq::<char>::empty());
    assert(rule.tags@ == seq![ResourceTag::Metal, ResourceTag::Ingot]);
    assert(is_metal_rule(rule, " Ingot"@, "A pure form of "@, " in a convenient bar form"@,
                seq![ResourceTag::Metal, ResourceTag::Ingot]));
    let ghost g1 = rule;
    proof {
        assert(is_setup_rule(g1)) by {
            assert(g1.required_tags@[0] == ResourceTag::Base);
            assert(seq![" Ingot"@, " Plate"@, " Ore"@, " Wire"@][0] == g1.name_suffix@);
            if g1.tags@.contains(ResourceTag::Base) {
                let w = choose|w: int| 0 <= w < g1.tags@.len() && g1.tags@[w] == ResourceTag::Base;
            }
        }
    }
    let r = manager.add_processed_transformer(rule);
    let ghost r4 = manager.resources@;
    proof {
        lemma_extends_trans(r0, r3, r4);
        if fresh {
            let rules = manager.transformations@;
            assert(rules =~= seq![g1]);
            assert forall|k: int| 0 <= k < rules.len() implies is_setup_rule(#[trigger] rules[k]) by {
                assert(rules[k] == g1);
            }
            lemma_setup_step(r3, r4, rules);
            lemma_setup_bound(r4);
        }
    }
    if r.is_err() {
        return r;
    }
    let rule = TransformRule::new(&base_metal, "", " Plate", "",
        " flattened to the MAXIMUM extent", &metal_tags);
    let ghost g2 = rule;
    proof {
        assert(is_setup_rule(g2)) by {
            assert(g2.required_tags@[0] == ResourceTag::Base);
            assert(seq![" Ingot"@, " Plate"@, " Ore"@, " Wire"@][1] == g2.name_suffix@);
            if g2.tags@.contains(ResourceTag::Base) {
                let w = choose|w: int| 0 <= w < g2.tags@.len() && g2.tags@[w] == ResourceTag::Base;
            }
        }
    }
    let r = manager.add_processed_transformer(rule);
    let ghost r5 = manager.resources@;
    proof {
        lemma_extends_trans(r0, r4, r5);
        if fresh {
            let rules = manager.transformations@;
            assert(rules =~= seq![g1, g2]);
            assert forall|k: int| 0 <= k < rules.len() implies is_setup_rule(#[trigger] rules[k]) by {
                assert(rules[k] == g1 || rules[k] == g2);
            }
            lemma_setup_step(r4, r5, rules);
            lemma_setup_bound(r5);
        }
    }
    if r.is_err() {
        return r;
    }
    let rule = TransformRule::new(&base_metal, "", " Ore", "The ore form of ", "", &ore_tags);
    let ghost g3 = rule;
    proof {
        assert(is_setup_rule(g3)) by {
            assert(g3.required_tags@[0] == ResourceTag::Base);
            assert(seq![" Ingot"@, " Plate"@, " Ore"@, " Wire"@][2] == g3.name_suffix@);
            if g3.tags@.contains(ResourceTag::Base) {
                let w = choose|w: int| 0 <= w < g3.tags@.len() && g3.tags@[w] == ResourceTag::Base;
            }
        }
    }
    let r = manager.add_processed_transformer(rule);
    let ghost r6 = manager.resources@;
    proof {
        lemma_extends_trans(r0, r5, r6);
        if fresh {
            let rules = manager.transformations@;
            assert(rules =~= seq![g1, g2, g3]);
            assert forall|k: int| 0 <= k < rules.len() implies is_setup_rule(#[trigger] rules[k]) by {
                assert(rules[k] == g1 || rules[k] == g2 || rules[k] == g3);
            }
            lemma_setup_step(r5, r6, rules);
            lemma_setup_bound(r6);
        }
    }
    if r.is_err() {
        return r;
    }
    let rule = TransformRule::new(&base_metal, "", " Wire", "",
        " thin and noodly, just the way I like it", &metal_tags);
    let ghost g4 = rule;
    proof {
        assert(is_setup_rule(g4)) by {
            assert(g4.required_tags@[0] == ResourceTag::Base);
            assert(seq![" Ingot"@, " Plate"@, " Ore"@, " Wire"@][3] == g4.name_suffix@);
            if g4.tags@.contains(ResourceTag::Base) {
                let w = choose|w: int| 0 <= w < g4.tags@.len() && g4.tags@[w] == ResourceTag::Base;
            }
        }
    }
    let r = manager.add_processed_transformer(rule);
    let ghost r7 = manager.resources@;
    proof {
        lemma_extends_trans(r0, r6, r7);
        if fresh {
            let rules = manager.transformations@;
            assert(rules =~= seq![g1, g2, g3, g4]);
            assert forall|k: int| 0 <= k < rules.len() implies is_setup_rule(#[trigger] rules[k]) by {
                assert(rules[k] == g1 || rules[k] == g2 || rules[k] == g3 || rules[k] == g4);
            }
            lemma_setup_step(r6, r7, rules);
            lemma_setup_bound(r7);
        }
    }
    if r.is_err() {
        return r;
    }
    proof {
        let fin = manager.resources@;
        lemma_extends_trans(r3, r4, r5);
        lemma_extends_trans(r3, r5, r6);
        lemma_extends_trans(r3, r6, fin);
        lemma_extends_keeps_facts(r3, fin, rules0, 0, 0);
        assert(manager.transformations@.subrange(0, rules0.len() as int) =~= rules0);
        if fresh {
            let rules = manager.transformations@;
            let forms = seq![" Ingot"@, " Plate"@, " Ore"@, " Wire"@];
            assert(rules =~= seq![g1, g2, g3, g4]);
            assert forall|b: int| 0 <= b < 3 implies (#[trigger] fin[b]).tags@ == seq![
                ResourceTag::Metal,
                ResourceTag::Base,
            ] && fin[b].name@ == setup_names()[b] by {
                assert(fin[b] == r3[b]);
                if b < 2 {
                    assert(r3[b] == r2[b]);
                    if b < 1 {
                        assert(r2[b] == r1[b]);
                    }
                }
            }
            assert forall|n: Seq<char>| name_in(fin, n) <==> setup_names().contains(n) by {
                if name_in(fin, n) {
                    let j = choose|j: int| 0 <= j < fin.len() && (#[trigger] fin[j]).name@ == n;
                    if j < 3 {
                        assert(setup_names()[j] == n);
                    }
                }
                if setup_names().contains(n) {
                    let x = choose|x: int| 0 <= x < setup_names().len() && setup_names()[x] == n;
                    if x < 3 {
                        assert(fin[x].name@ == n);
                    } else {
                        let b = (x - 3) / 4;
                        let f = (x - 3) % 4;
                        assert(0 <= b < 3 && 0 <= f < 4);
                        assert(closed_at(fin, rules, b, f));
                        assert(rules[f].name_suffix@ == forms[f]);
                        assert(has_all_tags(fin[b].tags@, rules[f].required_tags@)) by {
                            assert forall|t: ResourceTag| #[trigger] rules[f].required_tags@.contains(t)
                                implies fin[b].tags@.contains(t) by {
                                if t == ResourceTag::Base {
                                    assert(fin[b].tags@[1] == t);
                                } else {
                                    assert(fin[b].tags@[0] == t);
                                }
                            }
                        }
                        assert(derived_name(rules[f], fin[b]) =~= n);
                    }
                }
            }
        }
    }
    Ok(())
}

/// Closure is deterministic: catalogs that hold the same resources (as
/// values), closed from the same position under the same rules, end up
/// holding the same resources in the same order.
pub proof fn lemma_closure_deterministic(
    a: Seq<Resource>,
    b: Seq<Resource>,
    rules: Seq<TransformRule>,
    start: int,
)
    requires
        views_of(a) == views_of(b),
    ensures
        closure_run(views_of(a), rules, start, 0) == closure_run(views_of(b), rules, start, 0),
{
}

/// The names of the resources that a tag query on `res` returns.
pub open spec fn queried_names(res: Seq<Resource>, required: Seq<ResourceTag>) -> Set<Seq<char>> {
    Set::new(
        |n: Seq<char>|
            exists|x: int|
                0 <= x < matching_ids(res, required).len() && (#[trigger] res[matching_ids(
                    res,
                    required,
                )[x] as int]).name@ == n,
    )
}

proof fn lemma_queried_names_sub(a: Seq<Resource>, b: Seq<Resource>, required: Seq<ResourceTag>)
    requires
        ids_are_positions(a),
        ids_are_positions(b),
        forall|j: int|
            0 <= j < a.len() ==> exists|m: int|
                0 <= m < b.len() && (#[trigger] b[m]).name@ == (#[trigger] a[j]).name@ && b[m].tags@
                    == a[j].tags@,
    ensures
        queried_names(a, required).subset_of(queried_names(b, required)),
{
    lemma_matching_ids_exact(a, required);
    lemma_matching_ids_exact(b, required);
    let ia = matching_ids(a, required);
    let ib = matching_ids(b, required);
    assert forall|n: Seq<char>| queried_names(a, required).contains(n) implies queried_names(
        b,
        required,
    ).contains(n) by {
        let x = choose|x: int| 0 <= x < ia.len() && (#[trigger] a[ia[x] as int]).name@ == n;
        let j = ia[x] as int;
        assert(ia.contains(j as u64));
        assert(has_all_tags(a[j].tags@, required));
        let m = choose|m: int|
            0 <= m < b.len() && (#[trigger] b[m]).name@ == a[j].name@ && b[m].tags@ == a[j].tags@;
        assert(has_all_tags(b[m].tags@, required));
        assert(ib.contains(m as u64));
        let y = choose|y: int| 0 <= y < ib.len() && ib[y] == m as u64;
        assert(b[ib[y] as int].name@ == n);
    }
}

/// A tag query does not depend on insertion order: two catalogs that hold
/// the same resources (the same names with the same tags), in any order,
/// return the same names.
pub proof fn lemma_tag_query_order_free(a: Seq<Resource>, b: Seq<Resource>, required: Seq<ResourceTag>)
    requires
        ids_are_positions(a),
        ids_are_positions(b),
        forall|j: int|
            0 <= j < a.len() ==> exists|m: int|
                0 <= m < b.len() && (#[trigger] b[m]).name@ == (#[trigger] a[j]).name@ && b[m].tags@
                    == a[j].tags@,
        forall|m: int|
            0 <= m < b.len() ==> exists|j: int|
                0 <= j < a.len() && (#[trigger] a[j]).name@ == (#[trigger] b[m]).name@ && a[j].tags@
                    == b[m].tags@,
    ensures
        queried_names(a, required) == queried_names(b, required),
{
    lemma_queried_names_sub(a, b, required);
    lemma_queried_names_sub(b, a, required);
    assert(queried_names(a, required) =~= queried_names(b, required));
}

/// Once a resource has been added, its name is taken: by the contract of
/// `add_resource`, a later resource of the same name is refused with
/// `DuplicateResourceName` and leaves the catalog as it was.
pub proof fn lemma_added_name_taken(
    before: Seq<Resource>,
    after: Seq<Resource>,
    first: Resource,
    second: Resource,
)
    requires
        after.len() > before.len(),
        after[before.len() as int] == with_id(first, before.len() as u64),
        second.name@ == first.name@,
    ensures
        name_in(after, second.name@),
{
    assert(after[before.len() as int].name@ == second.name@);
}

/// In a closed catalog, whatever a rule derives from a resource it holds is
/// already there.
pub proof fn lemma_closed_holds_derived(res: Seq<Resource>, rules: Seq<TransformRule>, i: int, k: int)
    requires
        is_closed(res, rules),
        0 <= i < res.len(),
        0 <= k < rules.len(),
        applies(rules[k], res[i]),
    ensures
        name_in(res, derived_name(rules[k], res[i])),
{
    assert(closed_at(res, rules, i, k));
}

#[verifier::external_type_specification]
#[verifier::external_body]
pub struct ExRegex(regex::Regex);

/// Whether `regex::Regex::new` accepts `pattern`.
pub uninterp spec fn regex_compiles(pattern: Seq<char>) -> bool;

/// Whether the regex that `regex::Regex::new` compiles from `pattern` finds a
/// match somewhere in `haystack`.
pub uninterp spec fn regex_finds(pattern: Seq<char>, haystack: Seq<char>) -> bool;

/// The byte spans of the capture groups of the first match of the regex
/// compiled from `pattern` in `haystack`: group 0 is the whole match, a group
/// that took no part in the match is `None`.
pub uninterp spec fn regex_capture_spans(pattern: Seq<char>, haystack: Seq<char>) -> Seq<
    Option<(usize, usize)>,
>;

/// The capture groups of a match, as byte spans of the haystack.
pub type CaptureSpans = Vec<Option<(usize, usize)>>;

/// Relies on `regex::Regex::new`: compiles `pattern` with the default
/// settings, which succeeds or fails depending on the pattern alone.
#[verifier::external_body]
fn compile_regex(pattern: &str) -> (r: Option<regex::Regex>)
    ensures
        r is Some <==> regex_compiles(pattern@),
{
    regex::Regex::new(pattern).ok()
}

/// A regular expression over resource names, compiled once from its source.
/// Its fields are private: the regex is always the one compiled from
/// `source`.
#[derive(Debug)]
pub struct NamePattern {
    source: String,
    regex: regex::Regex,
}

impl NamePattern {
    /// The text that the pattern was compiled from.
    pub closed spec fn source(&self) -> Seq<char> {
        self.source@
    }

    /// The pattern compiled from `pattern`, if it is a valid regex.
    pub fn new(pattern: &str) -> (r: Option<NamePattern>)
        ensures
            r is Some <==> regex_compiles(pattern@),
            r matches Some(p) ==> p.source() == pattern@,
    {
        match compile_regex(pattern) {
            Some(regex) => Some(NamePattern { source: pattern.to_owned(), regex }),
            None => None,
        }
    }

    /// Relies on `regex::Regex::captures`: `None` when the regex finds no
    /// match in `haystack`, else the spans of every capture group of the
    /// first match, group 0 (the whole match) always present.
    #[verifier::external_body]
    fn captures(&self, haystack: &str) -> (r: Option<CaptureSpans>)
        ensures
            r is Some <==> regex_finds(self.source(), haystack@),
            r matches Some(spans) ==> spans@ == regex_capture_spans(self.source(), haystack@)
                && spans@.len() > 0 && spans@[0] is Some,
    {
        self.regex.captures(haystack).map(
            |caps| caps.iter().map(|m| m.map(|m| (m.start(), m.end()))).collect(),
        )
    }
}

/// The ids of the resources of `res` whose name `pattern` finds a match in,
/// in order.
pub open spec fn name_matches(res: Seq<Resource>, pattern: Seq<char>) -> Seq<u64>
    decreases res.len(),
{
    if res.len() == 0 {
        Seq::empty()
    } else {
        let rest = name_matches(res.drop_last(), pattern);
        if regex_finds(pattern, res.last().name@) {
            rest.push(res.last().id)
        } else {
            rest
        }
    }
}

impl ResourceManager {
    /// The resources whose name `pattern` matches (anywhere in the name), in
    /// id order, each with the capture spans of the first match in its name.
    pub fn resources_by_regular_expression(&self, pattern: &NamePattern) -> (r: Vec<
        (&Resource, CaptureSpans),
    >)
        requires
            self.wf(),
        ensures
            r@.len() == name_matches(self.resources@, pattern.source()).len(),
            forall|j: int|
                0 <= j < r@.len() ==> {
                    let res = self.resources@[name_matches(self.resources@, pattern.source())[j] as int];
                    &&& *(#[trigger] r@[j]).0 == res
                    &&& r@[j].1@ == regex_capture_spans(pattern.source(), res.name@)
                },
    {
        let mut out: Vec<(&Resource, CaptureSpans)> = Vec::new();
        let mut i: usize = 0;
        while i < self.resources.len()
            invariant
                self.wf(),
                0 <= i <= self.resources@.len(),
                out@.len() == name_matches(self.resources@.subrange(0, i as int), pattern.source()).len(),
                forall|j: int|
                    0 <= j < out@.len() ==> {
                        let res = self.resources@[name_matches(
                            self.resources@.subrange(0, i as int),
                            pattern.source(),
                        )[j] as int];
                        &&& *(#[trigger] out@[j]).0 == res
                        &&& out@[j].1@ == regex_capture_spans(pattern.source(), res.name@)
                    },
            decreases self.resources@.len() - i,
        {
            let ghost sub = self.resources@.subrange(0, i as int + 1);
            assert(sub.drop_last() =~= self.resources@.subrange(0, i as int));
            assert(sub.last() == self.resources@[i as int]);
            match pattern.captures(self.resources[i].name.as_str()) {
                Some(spans) => out.push((&self.resources[i], spans)),
                None => {},
            }
            i = i + 1;
        }
        assert(self.resources@.subrange(0, i as int) =~= self.resources@);
        out
    }
}

/// The names of `res`, in order, separated by ", ".
pub open spec fn joined_names(res: Seq<Resource>) -> Seq<char>
    decreases res.len(),
{
    if res.len() == 0 {
        Seq::empty()
    } else if res.len() == 1 {
        res[0].name@
    } else {
        joined_names(res.drop_last()) + ", "@ + res.last().name@
    }
}

impl ResourceManager {
    /// A one-line description of the catalog: its resources' names.
    pub fn summary(&self) -> (r: String)
        ensures
            r@ == "ResourceManager {"@ + joined_names(self.resources@) + "}"@,
    {
        let mut out = "ResourceManager {".to_owned();
        let ghost head = out@;
        let mut i: usize = 0;
        while i < self.resources.len()
            invariant
                0 <= i <= self.resources@.len(),
                out@ == head + joined_names(self.resources@.subrange(0, i as int)),
            decreases self.resources@.len() - i,
        {
            let ghost sub = self.resources@.subrange(0, i as int + 1);
            assert(sub.drop_last() =~= self.resources@.subrange(0, i as int));
            assert(sub.last() == self.resources@[i as int]);
            if i > 0 {
                out.append(", ");
            }
            out.append(self.resources[i].name.as_str());
            proof {
                if i == 0 {
                    assert(sub[0] == self.resources@[0]);
                    assert(self.resources@.subrange(0, 0) =~= Seq::<Resource>::empty());
                    assert(out@ =~= head + joined_names(sub));
                } else {
                    assert(out@ =~= head + joined_names(sub));
                }
            }
            i = i + 1;
        }
        assert(self.resources@.subrange(0, i as int) =~= self.resources@);
        out.append("}");
        out
    }
}

} // verus!
