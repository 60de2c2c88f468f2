//! Planets, their fragments and biomes, and caches of them by id.
use vstd::prelude::*;
use crate::actions::TargetedAction;
use crate::path::TileOffset;
use crate::tile::{Quad, Tile};

verus! {

/// What a fragment does when activated.
pub type Behavior = Vec<TargetedAction<TileOffset>>;

/// Which fragments are allowed, by id.
#[derive(Debug, Clone)]
pub struct Filter(pub Vec<bool>);

impl Filter {
    pub open spec fn view(&self) -> Seq<bool> {
        self.0@
    }

    /// Whether the fragment of this id is allowed: ids past the end are not.
    pub open spec fn spec_allows(&self, idx: int) -> bool {
        0 <= idx < self@.len() && self@[idx]
    }

    /// Allows every one of `frag_count` fragments.
    pub fn all(frag_count: usize) -> (r: Filter)
        ensures
            r@ == Seq::new(frag_count as nat, |i: int| true),
    {
        let mut v: Vec<bool> = Vec::new();
        let mut i: usize = 0;
        while i < frag_count
            invariant
                i <= frag_count,
                v@ == Seq::new(i as nat, |k: int| true),
            decreases frag_count - i,
        {
            v.push(true);
            i = i + 1;
            assert(v@ =~= Seq::new(i as nat, |k: int| true));
        }
        Filter(v)
    }

    /// Whether the fragment of this id is allowed.
    pub fn allows(&self, idx: usize) -> (r: bool)
        ensures
            r == self.spec_allows(idx as int),
    {
        if idx < self.0.len() {
            self.0[idx]
        } else {
            false
        }
    }

    /// This filter with one more fragment disallowed.
    pub fn without(self, idx: usize) -> (r: Filter)
        requires
            idx < self@.len(),
        ensures
            r@ == self@.update(idx as int, false),
    {
        let mut out = self;
        out.0.set(idx, false);
        out
    }
}

/// The fragments of a planet: their quads, names and behaviors, by id.
#[derive(Debug, Clone)]
pub struct FragmentData {
    pub quads: Vec<Quad<Tile>>,
    pub leaf_count: usize,
    pub names: Vec<String>,
    pub behaviors: Vec<Behavior>,
}

impl FragmentData {
    pub fn names(&self) -> (r: &[String])
        ensures
            r@ == self.names@,
    {
        self.names.as_slice()
    }

    pub fn behaviors(&self) -> (r: &[Behavior])
        ensures
            r@ == self.behaviors@,
    {
        self.behaviors.as_slice()
    }
}

/// A planet: a set of fragments.
#[derive(Debug)]
pub struct Planet {
    pub name: String,
    pub desc: String,
    pub fragments: FragmentData,
}

impl Planet {
    pub fn fragments(&self) -> (r: &FragmentData)
        ensures
            *r == self.fragments,
    {
        &self.fragments
    }

    /// The id named after the planet.
    pub fn default_id(&self) -> (r: PlanetId)
        ensures
            r.0@ == self.name@,
    {
        PlanetId(self.name.clone())
    }
}

/// A biome of a planet: which fragments it allows, and the tile it starts
/// with.
#[derive(Debug, Clone)]
pub struct Biome {
    pub name: String,
    pub desc: String,
    pub fragment_filter: Filter,
    pub starting_tile: Tile,
}

impl Biome {
    /// The number of fragments the filter speaks of.
    pub fn leaf_count(&self) -> (r: usize)
        ensures
            r == self.fragment_filter@.len(),
    {
        self.fragment_filter.0.len()
    }

    /// The id named after the biome.
    pub fn default_id(&self) -> (r: BiomeId)
        ensures
            r.0@ == self.name@,
    {
        BiomeId(self.name.clone())
    }

    pub fn fragment_filter(&self) -> (r: &Filter)
        ensures
            r@ == self.fragment_filter@,
    {
        &self.fragment_filter
    }

    /// The behavior of a fragment here: none when the filter disallows it or
    /// no behavior is given for it.
    pub fn behavior<'a>(&self, behaviors: &'a [Behavior], id: usize) -> (r: &'a [TargetedAction<
        TileOffset,
    >])
        ensures
            r@ == (if self.fragment_filter.spec_allows(id as int) && id < behaviors@.len() {
                behaviors@[id as int]@
            } else {
                Seq::empty()
            }),
    {
        if self.fragment_filter.allows(id) && id < behaviors.len() {
            behaviors[id].as_slice()
        } else {
            &[]
        }
    }
}

/// The name of a biome.
#[derive(Debug, Clone, PartialEq, Eq, PartialOrd, Ord, Hash)]
pub struct BiomeId(pub String);

impl From<String> for BiomeId {
    fn from(value: String) -> (r: BiomeId) {
        BiomeId(value)
    }
}

impl vstd::std_specs::convert::FromSpecImpl<String> for BiomeId {
    open spec fn obeys_from_spec() -> bool {
        true
    }

    open spec fn from_spec(v: String) -> BiomeId {
        BiomeId(v)
    }
}

/// The name of a planet.
#[derive(Debug, Clone, PartialEq, Eq, PartialOrd, Ord, Hash)]
pub struct PlanetId(pub String);

impl From<String> for PlanetId {
    fn from(value: String) -> (r: PlanetId) {
        PlanetId(value)
    }
}

impl vstd::std_specs::convert::FromSpecImpl<String> for PlanetId {
    open spec fn obeys_from_spec() -> bool {
        true
    }

    open spec fn from_spec(v: String) -> PlanetId {
        PlanetId(v)
    }
}

/// The biomes that are loaded, by id; no id occurs twice.
#[derive(Debug)]
pub struct BiomeCache {
    pub biomes: Vec<(BiomeId, Biome)>,
}

impl BiomeCache {
    /// The ids, in the order they were registered.
    pub open spec fn ids(&self) -> Seq<Seq<char>> {
        Seq::new(self.biomes@.len(), |i: int| self.biomes@[i].0.0@)
    }

    /// No id occurs twice.
    pub open spec fn wf(&self) -> bool {
        forall|i: int, j: int|
            0 <= i < j < self.biomes@.len() ==> (#[trigger] self.biomes@[i]).0.0@ != (
            #[trigger] self.biomes@[j]).0.0@
    }

    /// The biomes by the text of their ids.
    pub open spec fn view(&self) -> Map<Seq<char>, Biome> {
        Map::new(
            |k: Seq<char>| exists|i: int| 0 <= i < self.biomes@.len() && #[trigger] self.biomes@[i].0.0@ == k,
            |k: Seq<char>|
                self.biomes@[choose|i: int| 0 <= i < self.biomes@.len() && #[trigger] self.biomes@[i].0.0@ == k].1,
        )
    }

    /// An empty cache.
    pub fn new() -> (r: BiomeCache)
        ensures
            r.wf(),
            r@ == Map::<Seq<char>, Biome>::empty(),
    {
        let r = BiomeCache { biomes: Vec::new() };
        assert(r@ =~= Map::<Seq<char>, Biome>::empty());
        r
    }

    /// The position of an id, if it is there.
    fn find(&self, id: &BiomeId) -> (r: Option<usize>)
        ensures
            match r {
                Some(i) => i < self.biomes@.len() && self.biomes@[i as int].0.0@ == id.0@,
                None => forall|i: int| 0 <= i < self.biomes@.len() ==> (#[trigger] self.biomes@[i]).0.0@ != id.0@,
            },
    {
        let mut i: usize = 0;
        while i < self.biomes.len()
            invariant
                i <= self.biomes@.len(),
                forall|k: int| 0 <= k < i ==> (#[trigger] self.biomes@[k]).0.0@ != id.0@,
            decreases self.biomes@.len() - i,
        {
            if self.biomes[i].0.0 == id.0 {
                return Some(i);
            }
            i = i + 1;
        }
        None
    }

    /// The ids of the loaded biomes, in the order they were registered.
    pub fn iter(&self) -> (r: Vec<&BiomeId>)
        ensures
            r@.len() == self.biomes@.len(),
            forall|i: int| 0 <= i < r@.len() ==> *r@[i] == self.biomes@[i].0,
    {
        let mut out: Vec<&BiomeId> = Vec::new();
        let mut i: usize = 0;
        while i < self.biomes.len()
            invariant
                i <= self.biomes@.len(),
                out@.len() == i,
                forall|k: int| 0 <= k < i ==> *out@[k] == self.biomes@[k].0,
            decreases self.biomes@.len() - i,
        {
            out.push(&self.biomes[i].0);
            i = i + 1;
        }
        out
    }

    /// Puts a biome in the cache under an id, in place of any biome there.
    pub fn register(&mut self, id: BiomeId, biome: Biome)
        requires
            old(self).wf(),
        ensures
            final(self).wf(),
            final(self)@ == old(self)@.insert(id.0@, biome),
    {
        let ghost key = id.0@;
        match self.find(&id) {
            Some(i) => {
                let ghost old_entries = self.biomes@;
                self.biomes.set(i, (id, biome));
                proof {
                    assert forall|k: Seq<char>| #[trigger] self@.contains_key(k) == old(self)@.insert(key, biome).contains_key(k)
                        by {
                        if old(self)@.contains_key(k) {
                            let j = choose|j: int| 0 <= j < old_entries.len() && #[trigger] old_entries[j].0.0@ == k;
                            assert(self.biomes@[j].0.0@ == k);
                        }
                        if self@.contains_key(k) {
                            let j = choose|j: int| 0 <= j < self.biomes@.len() && #[trigger] self.biomes@[j].0.0@ == k;
                            if j != i {
                                assert(old_entries[j].0.0@ == k);
                            }
                        }
                    }
                    assert forall|k: Seq<char>| #[trigger] self@.contains_key(k) implies self@[k] == old(self)@.insert(
                        key,
                        biome,
                    )[k] by {
                        let j = choose|j: int| 0 <= j < self.biomes@.len() && #[trigger] self.biomes@[j].0.0@ == k;
                        if k == key {
                            if j != i {
                                assert(self.biomes@[i as int].0.0@ == self.biomes@[j].0.0@);
                            }
                        } else {
                            let j2 = choose|j: int| 0 <= j < old_entries.len() && #[trigger] old_entries[j].0.0@ == k;
                            assert(old_entries[j] == self.biomes@[j]);
                            if j != j2 {
                                assert(self.biomes@[j2].0.0@ == k);
                            }
                        }
                    }
                    assert(self@ =~= old(self)@.insert(key, biome));
                }
            },
            None => {
                let ghost old_entries = self.biomes@;
                self.biomes.push((id, biome));
                proof {
                    let n = old_entries.len() as int;
                    assert forall|k: Seq<char>| #[trigger] self@.contains_key(k) == old(self)@.insert(key, biome).contains_key(k)
                        by {
                        if old(self)@.contains_key(k) {
                            let j = choose|j: int| 0 <= j < old_entries.len() && #[trigger] old_entries[j].0.0@ == k;
                            assert(self.biomes@[j].0.0@ == k);
                        }
                        if k == key {
                            assert(self.biomes@[n].0.0@ == k);
                        }
                        if self@.contains_key(k) {
                            let j = choose|j: int| 0 <= j < self.biomes@.len() && #[trigger] self.biomes@[j].0.0@ == k;
                            if j < n {
                                assert(old_entries[j].0.0@ == k);
                            }
                        }
                    }
                    assert forall|k: Seq<char>| #[trigger] self@.contains_key(k) implies self@[k] == old(self)@.insert(
                        key,
                        biome,
                    )[k] by {
                        let j = choose|j: int| 0 <= j < self.biomes@.len() && #[trigger] self.biomes@[j].0.0@ == k;
                        if k == key {
                            assert(j == n);
                        } else {
                            let j2 = choose|j: int| 0 <= j < old_entries.len() && #[trigger] old_entries[j].0.0@ == k;
                            assert(old_entries[j2] == self.biomes@[j2]);
                            if j != j2 {
                                assert(j < n);
                            }
                        }
                    }
                    assert(self@ =~= old(self)@.insert(key, biome));
                }
            },
        }
    }

    /// The biome under an id. Loading a biome that is not in the cache is
    /// not supported, so the id must be in the cache.
    pub fn get_or_load(&mut self, id: BiomeId) -> (r: &Biome)
        requires
            old(self).wf(),
            old(self)@.contains_key(id.0@),
        ensures
            *r == old(self)@[id.0@],
            *final(self) == *old(self),
    {
        let b = self.get(&id);
        b.unwrap()
    }

    /// The biome under an id, if it is loaded.
    pub fn get(&self, id: &BiomeId) -> (r: Option<&Biome>)
        requires
            self.wf(),
        ensures
            match r {
                Some(b) => self@.contains_key(id.0@) && *b == self@[id.0@],
                None => !self@.contains_key(id.0@),
            },
    {
        match self.find(id) {
            Some(i) => {
                proof {
                    let k = id.0@;
                    assert(self.biomes@[i as int].0.0@ == k);
                    let j = choose|j: int| 0 <= j < self.biomes@.len() && #[trigger] self.biomes@[j].0.0@ == k;
                    if j != i {
                        assert(self.biomes@[j].0.0@ == self.biomes@[i as int].0.0@);
                    }
                }
                Some(&self.biomes[i].1)
            },
            None => None,
        }
    }
}

/// The planets of a list of entries by the text of their ids.
pub open spec fn planets_view(s: Seq<(PlanetId, Planet)>) -> Map<Seq<char>, Planet> {
    Map::new(
        |k: Seq<char>| exists|i: int| 0 <= i < s.len() && #[trigger] s[i].0.0@ == k,
        |k: Seq<char>| s[choose|i: int| 0 <= i < s.len() && #[trigger] s[i].0.0@ == k].1,
    )
}

/// No id occurs twice in a list of entries.
pub open spec fn planets_apart(s: Seq<(PlanetId, Planet)>) -> bool {
    forall|i: int, j: int| 0 <= i < j < s.len() ==> (#[trigger] s[i]).0.0@ != (#[trigger] s[j]).0.0@
}

/// Replacing the planet of one entry replaces the planet under its id, and
/// keeps the ids apart.
pub broadcast proof fn lemma_replace_planet(s: Seq<(PlanetId, Planet)>, i: int, e: (PlanetId, Planet))
    requires
        planets_apart(s),
        0 <= i < s.len(),
        e.0 == s[i].0,
    ensures
        #[trigger] planets_view(s.update(i, e)) == planets_view(s).insert(s[i].0.0@, e.1),
        planets_apart(s.update(i, e)),
{
    let s1 = s.update(i, e);
    let k = s[i].0.0@;
    let p = e.1;
    assert forall|a: int, b: int| 0 <= a < b < s1.len() implies (#[trigger] s1[a]).0.0@ != (#[trigger] s1[b]).0.0@ by {
        assert(s1[a].0.0@ == s[a].0.0@);
        assert(s1[b].0.0@ == s[b].0.0@);
    }
    let v0 = planets_view(s);
    let v1 = planets_view(s1);
    assert forall|key: Seq<char>| #[trigger] v1.contains_key(key) <==> v0.insert(k, p).contains_key(key) by {
        if v0.contains_key(key) {
            let j = choose|j: int| 0 <= j < s.len() && #[trigger] s[j].0.0@ == key;
            assert(s1[j].0.0@ == key);
        }
        if v1.contains_key(key) {
            let j = choose|j: int| 0 <= j < s1.len() && #[trigger] s1[j].0.0@ == key;
            assert(s[j].0.0@ == key);
        }
        assert(s1[i].0.0@ == k);
    }
    assert forall|key: Seq<char>| #[trigger] v1.contains_key(key) implies v1[key] == v0.insert(k, p)[key] by {
        let j1 = choose|j: int| 0 <= j < s1.len() && #[trigger] s1[j].0.0@ == key;
        if key == k {
            assert(s1[i].0.0@ == k);
            if j1 != i {
                assert(s1[j1].0.0@ == s1[i].0.0@);
            }
        } else {
            let j0 = choose|j: int| 0 <= j < s.len() && #[trigger] s[j].0.0@ == key;
            assert(s[j1].0.0@ == key);
            if j0 != j1 {
                assert(s[j0].0.0@ == s[j1].0.0@);
            }
        }
    }
    assert(v1 =~= v0.insert(k, p));
}

/// The planets that are loaded, by id; no id occurs twice.
#[derive(Debug)]
pub struct PlanetCache {
    pub planets: Vec<(PlanetId, Planet)>,
}

impl PlanetCache {
    /// The ids, in the order they were registered.
    pub open spec fn ids(&self) -> Seq<Seq<char>> {
        Seq::new(self.planets@.len(), |i: int| self.planets@[i].0.0@)
    }

    /// No id occurs twice.
    pub open spec fn wf(&self) -> bool {
        planets_apart(self.planets@)
    }

    /// The planets by the text of their ids.
    pub open spec fn view(&self) -> Map<Seq<char>, Planet> {
        planets_view(self.planets@)
    }

    /// An empty cache.
    pub fn new() -> (r: PlanetCache)
        ensures
            r.wf(),
            r@ == Map::<Seq<char>, Planet>::empty(),
    {
        let r = PlanetCache { planets: Vec::new() };
        assert(r@ =~= Map::<Seq<char>, Planet>::empty());
        r
    }

    /// The position of an id, if it is there.
    fn find(&self, id: &PlanetId) -> (r: Option<usize>)
        ensures
            match r {
                Some(i) => i < self.planets@.len() && self.planets@[i as int].0.0@ == id.0@,
                None => forall|i: int| 0 <= i < self.planets@.len() ==> (#[trigger] self.planets@[i]).0.0@ != id.0@,
            },
    {
        let mut i: usize = 0;
        while i < self.planets.len()
            invariant
                i <= self.planets@.len(),
                forall|k: int| 0 <= k < i ==> (#[trigger] self.planets@[k]).0.0@ != id.0@,
            decreases self.planets@.len() - i,
        {
            if self.planets[i].0.0 == id.0 {
                return Some(i);
            }
            i = i + 1;
        }
        None
    }

    /// Puts a planet in the cache under an id, in place of any planet there.
    pub fn register(&mut self, id: PlanetId, planet: Planet)
        requires
            old(self).wf(),
        ensures
            final(self).wf(),
            final(self)@ == old(self)@.insert(id.0@, planet),
    {
        let ghost key = id.0@;
        match self.find(&id) {
            Some(i) => {
                let ghost old_entries = self.planets@;
                self.planets.set(i, (id, planet));
                proof {
                    assert forall|k: Seq<char>| #[trigger] self@.contains_key(k) == old(self)@.insert(key, planet).contains_key(k)
                        by {
                        if old(self)@.contains_key(k) {
                            let j = choose|j: int| 0 <= j < old_entries.len() && #[trigger] old_entries[j].0.0@ == k;
                            assert(self.planets@[j].0.0@ == k);
                        }
                        if self@.contains_key(k) {
                            let j = choose|j: int| 0 <= j < self.planets@.len() && #[trigger] self.planets@[j].0.0@ == k;
                            if j != i {
                                assert(old_entries[j].0.0@ == k);
                            }
                        }
                    }
                    assert forall|k: Seq<char>| #[trigger] self@.contains_key(k) implies self@[k] == old(self)@.insert(
                        key,
                        planet,
                    )[k] by {
                        let j = choose|j: int| 0 <= j < self.planets@.len() && #[trigger] self.planets@[j].0.0@ == k;
                        if k == key {
                            if j != i {
                                assert(self.planets@[i as int].0.0@ == self.planets@[j].0.0@);
                            }
                        } else {
                            let j2 = choose|j: int| 0 <= j < old_entries.len() && #[trigger] old_entries[j].0.0@ == k;
                            assert(old_entries[j] == self.planets@[j]);
                            if j != j2 {
                                assert(self.planets@[j2].0.0@ == k);
                            }
                        }
                    }
                    assert(self@ =~= old(self)@.insert(key, planet));
                }
            },
            None => {
                let ghost old_entries = self.planets@;
                self.planets.push((id, planet));
                proof {
                    let n = old_entries.len() as int;
                    assert forall|k: Seq<char>| #[trigger] self@.contains_key(k) == old(self)@.insert(key, planet).contains_key(k)
                        by {
                        if old(self)@.contains_key(k) {
                            let j = choose|j: int| 0 <= j < old_entries.len() && #[trigger] old_entries[j].0.0@ == k;
                            assert(self.planets@[j].0.0@ == k);
                        }
                        if k == key {
                            assert(self.planets@[n].0.0@ == k);
                        }
                        if self@.contains_key(k) {
                            let j = choose|j: int| 0 <= j < self.planets@.len() && #[trigger] self.planets@[j].0.0@ == k;
                            if j < n {
                                assert(old_entries[j].0.0@ == k);
                            }
                        }
                    }
                    assert forall|k: Seq<char>| #[trigger] self@.contains_key(k) implies self@[k] == old(self)@.insert(
                        key,
                        planet,
                    )[k] by {
                        let j = choose|j: int| 0 <= j < self.planets@.len() && #[trigger] self.planets@[j].0.0@ == k;
                        if k == key {
                            assert(j == n);
                        } else {
                            let j2 = choose|j: int| 0 <= j < old_entries.len() && #[trigger] old_entries[j].0.0@ == k;
                            assert(old_entries[j2] == self.planets@[j2]);
                            if j != j2 {
                                assert(j < n);
                            }
                        }
                    }
                    assert(self@ =~= old(self)@.insert(key, planet));
                }
            },
        }
    }

    /// The planet under an id, to be changed in place. Loading a planet that
    /// is not in the cache is not supported, so the id must be in the cache.
    pub fn get_or_load(&mut self, id: PlanetId) -> (r: &mut Planet)
        requires
            old(self).wf(),
            old(self)@.contains_key(id.0@),
        ensures
            *r == old(self)@[id.0@],
            final(self).wf(),
            final(self)@ == old(self)@.insert(id.0@, *final(r)),
    {
        let i = self.find(&id).unwrap();
        proof {
            let k = id.0@;
            let j = choose|j: int| 0 <= j < self.planets@.len() && #[trigger] self.planets@[j].0.0@ == k;
            if j != i {
                assert(self.planets@[j].0.0@ == self.planets@[i as int].0.0@);
            }
        }
        proof {
            broadcast use lemma_replace_planet;
        }
        let entry = &mut self.planets[i];
        &mut entry.1
    }

    /// The planet under an id, if it is loaded, to be changed in place.
    pub fn get_mut(&mut self, id: &PlanetId) -> (r: Option<&mut Planet>)
        requires
            old(self).wf(),
        ensures
            final(self).wf(),
            match r {
                Some(p) => {
                    &&& old(self)@.contains_key(id.0@)
                    &&& *p == old(self)@[id.0@]
                    &&& final(self)@ == old(self)@.insert(id.0@, *final(p))
                },
                None => !old(self)@.contains_key(id.0@) && final(self)@ == old(self)@,
            },
    {
        match self.find(id) {
            Some(i) => {
                proof {
                    let k = id.0@;
                    let j = choose|j: int| 0 <= j < self.planets@.len() && #[trigger] self.planets@[j].0.0@ == k;
                    if j != i {
                        assert(self.planets@[j].0.0@ == self.planets@[i as int].0.0@);
                    }
                }
                proof {
                    broadcast use lemma_replace_planet;
                }
                let entry = &mut self.planets[i];
                Some(&mut entry.1)
            },
            None => None,
        }
    }

    /// The planet under an id, if it is loaded.
    pub fn get(&self, id: &PlanetId) -> (r: Option<&Planet>)
        requires
            self.wf(),
        ensures
            match r {
                Some(b) => self@.contains_key(id.0@) && *b == self@[id.0@],
                None => !self@.contains_key(id.0@),
            },
    {
        match self.find(id) {
            Some(i) => {
                proof {
                    let k = id.0@;
                    assert(self.planets@[i as int].0.0@ == k);
                    let j = choose|j: int| 0 <= j < self.planets@.len() && #[trigger] self.planets@[j].0.0@ == k;
                    if j != i {
                        assert(self.planets@[j].0.0@ == self.planets@[i as int].0.0@);
                    }
                }
                Some(&self.planets[i].1)
            },
            None => None,
        }
    }
}

} // verus!
