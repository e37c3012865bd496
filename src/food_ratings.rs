use crate::text::{chars_of, lemma_lex_total, lemma_lex_transitive, lex_less, lex_lt};
use vstd::prelude::*;

verus! {

/// A food as ranked within its cuisine.
#[derive(Debug)]
struct FoodEntry {
    rating: i32,
    name: String,
}

/// What is known of a food: its cuisine and current rating.
#[derive(Debug)]
struct FoodInfo {
    name: String,
    cuisine: String,
    rating: i32,
}

/// A ranking entry of a cuisine.
#[derive(Debug)]
struct Ranked {
    cuisine: String,
    entry: FoodEntry,
}

/// `(r1, n1)` ranks strictly before `(r2, n2)`: higher rating first, and
/// among equal ratings the name that sorts first.
pub open spec fn ranks_before(r1: i32, n1: Seq<char>, r2: i32, n2: Seq<char>) -> bool {
    r1 > r2 || (r1 == r2 && lex_lt(n1, n2))
}

proof fn lemma_ranks_transitive(
    r1: i32,
    n1: Seq<char>,
    r2: i32,
    n2: Seq<char>,
    r3: i32,
    n3: Seq<char>,
)
    requires
        ranks_before(r1, n1, r2, n2),
        ranks_before(r2, n2, r3, n3),
    ensures
        ranks_before(r1, n1, r3, n3),
{
    if r1 == r2 && r2 == r3 {
        lemma_lex_transitive(n1, n2, n3);
    }
}

proof fn lemma_ranks_total(r1: i32, n1: Seq<char>, r2: i32, n2: Seq<char>)
    requires
        r1 != r2 || n1 != n2,
    ensures
        ranks_before(r1, n1, r2, n2) || ranks_before(r2, n2, r1, n1),
{
    if r1 == r2 {
        lemma_lex_total(n1, n2);
    }
}

/// Number of (food, cuisine, rating) triples that the three lists give.
pub open spec fn zip_len(fs: Seq<String>, cs: Seq<String>, rs: Seq<i32>) -> nat {
    if fs.len() <= cs.len() && fs.len() <= rs.len() {
        fs.len()
    } else if cs.len() <= rs.len() {
        cs.len()
    } else {
        rs.len()
    }
}

/// Food to (cuisine, rating) after taking the first `n` triples in turn; a
/// later triple for the same food replaces an earlier one.
pub open spec fn foods_from(fs: Seq<String>, cs: Seq<String>, rs: Seq<i32>, n: nat) -> Map<
    Seq<char>,
    (Seq<char>, i32),
>
    decreases n,
{
    if n == 0 {
        Map::empty()
    } else {
        foods_from(fs, cs, rs, (n - 1) as nat).insert(fs[n - 1]@, (cs[n - 1]@, rs[n - 1]))
    }
}

/// (cuisine, rating, food) ranking entries after the first `n` triples.
pub open spec fn entries_from(fs: Seq<String>, cs: Seq<String>, rs: Seq<i32>, n: nat) -> Set<
    (Seq<char>, i32, Seq<char>),
>
    decreases n,
{
    if n == 0 {
        Set::empty()
    } else {
        entries_from(fs, cs, rs, (n - 1) as nat).insert((cs[n - 1]@, rs[n - 1], fs[n - 1]@))
    }
}

spec fn ranked_view(e: Ranked) -> (Seq<char>, i32, Seq<char>) {
    (e.cuisine@, e.entry.rating, e.entry.name@)
}

impl FoodEntry {
    /// Whether `self` ranks strictly before `other`.
    fn outranks(&self, other: &FoodEntry) -> (r: bool)
        ensures
            r == ranks_before(self.rating, self.name@, other.rating, other.name@),
    {
        if self.rating != other.rating {
            self.rating > other.rating
        } else {
            lex_less(&chars_of(self.name.as_str()), &chars_of(other.name.as_str()))
        }
    }
}

/// Ratings of foods, each of one cuisine, answering which food of a
/// cuisine ranks first.
#[derive(Debug)]
pub struct FoodRatings {
    foods: Vec<FoodInfo>,
    ranked: Vec<Ranked>,
}

impl FoodRatings {
    /// Each known food with its cuisine and current rating.
    pub closed spec fn food_map(&self) -> Map<Seq<char>, (Seq<char>, i32)> {
        Map::new(
            |f: Seq<char>| exists|i: int| 0 <= i < self.foods@.len() && self.foods@[i].name@ == f,
            |f: Seq<char>|
                {
                    let i = choose|i: int| 0 <= i < self.foods@.len() && self.foods@[i].name@ == f;
                    (self.foods@[i].cuisine@, self.foods@[i].rating)
                },
        )
    }

    /// The ranking entries, as (cuisine, rating, food).
    pub closed spec fn entries(&self) -> Set<(Seq<char>, i32, Seq<char>)> {
        Set::new(
            |t: (Seq<char>, i32, Seq<char>)|
                exists|i: int| 0 <= i < self.ranked@.len() && ranked_view(self.ranked@[i]) == t,
        )
    }

    /// Food names are unique among the records, and ranking entries are unique.
    pub closed spec fn wf(&self) -> bool {
        &&& forall|i: int, j: int|
            0 <= i < j < self.foods@.len() ==> self.foods@[i].name@ != self.foods@[j].name@
        &&& forall|i: int, j: int|
            0 <= i < j < self.ranked@.len() ==> ranked_view(self.ranked@[i]) != ranked_view(
                self.ranked@[j],
            )
    }

    proof fn lemma_food_at(&self, i: int)
        requires
            self.wf(),
            0 <= i < self.foods@.len(),
        ensures
            self.food_map().contains_key(self.foods@[i].name@),
            self.food_map()[self.foods@[i].name@] == (self.foods@[i].cuisine@, self.foods@[i].rating),
    {
        let f = self.foods@[i].name@;
        let j = choose|j: int| 0 <= j < self.foods@.len() && self.foods@[j].name@ == f;
        if j < i {
            assert(self.foods@[j].name@ != self.foods@[i].name@);
        } else if j > i {
            assert(self.foods@[i].name@ != self.foods@[j].name@);
        }
    }

    fn find_food(&self, name: &String) -> (r: Option<usize>)
        ensures
            match r {
                Some(i) => i < self.foods@.len() && self.foods@[i as int].name@ == name@,
                None => forall|i: int| 0 <= i < self.foods@.len() ==> self.foods@[i].name@ != name@,
            },
    {
        let mut i: usize = 0;
        while i < self.foods.len()
            invariant
                i <= self.foods@.len(),
                forall|j: int| 0 <= j < i ==> self.foods@[j].name@ != name@,
            decreases self.foods@.len() - i,
        {
            if self.foods[i].name == *name {
                return Some(i);
            }
            i += 1;
        }
        None
    }

    fn find_entry(&self, cuisine: &String, rating: i32, name: &String) -> (r: Option<usize>)
        ensures
            match r {
                Some(i) => i < self.ranked@.len() && ranked_view(self.ranked@[i as int]) == (
                    cuisine@,
                    rating,
                    name@,
                ),
                None => forall|i: int|
                    0 <= i < self.ranked@.len() ==> ranked_view(self.ranked@[i]) != (
                        cuisine@,
                        rating,
                        name@,
                    ),
            },
    {
        let mut i: usize = 0;
        while i < self.ranked.len()
            invariant
                i <= self.ranked@.len(),
                forall|j: int|
                    0 <= j < i ==> ranked_view(self.ranked@[j]) != (cuisine@, rating, name@),
            decreases self.ranked@.len() - i,
        {
            let e = &self.ranked[i];
            if e.entry.rating == rating && e.cuisine == *cuisine && e.entry.name == *name {
                return Some(i);
            }
            i += 1;
        }
        None
    }

    /// Builds the ratings from foods, their cuisines and their ratings,
    /// taken position by position up to the shortest of the three lists.
    pub fn new(foods: Vec<String>, cuisines: Vec<String>, ratings: Vec<i32>) -> (r: FoodRatings)
        ensures
            r.wf(),
            r.food_map() == foods_from(foods@, cuisines@, ratings@, zip_len(foods@, cuisines@, ratings@)),
            r.entries() == entries_from(foods@, cuisines@, ratings@, zip_len(foods@, cuisines@, ratings@)),
    {
        let mut r = FoodRatings { foods: Vec::new(), ranked: Vec::new() };
        proof {
            assert(r.food_map() =~= Map::<Seq<char>, (Seq<char>, i32)>::empty());
            assert(r.entries() =~= Set::<(Seq<char>, i32, Seq<char>)>::empty());
        }
        let mut n = foods.len();
        if cuisines.len() < n {
            n = cuisines.len();
        }
        if ratings.len() < n {
            n = ratings.len();
        }
        let mut i: usize = 0;
        while i < n
            invariant
                n == zip_len(foods@, cuisines@, ratings@),
                i <= n,
                r.wf(),
                r.food_map() == foods_from(foods@, cuisines@, ratings@, i as nat),
                r.entries() == entries_from(foods@, cuisines@, ratings@, i as nat),
            decreases n - i,
        {
            let food = foods[i].clone();
            let cuisine = cuisines[i].clone();
            let rating = ratings[i];
            r.set_food(food.clone(), cuisine.clone(), rating);
            r.add_entry(cuisine, rating, food);
            i += 1;
        }
        r
    }

    /// Gives `food` a new rating, moving it within its cuisine's ranking.
    pub fn change_rating(&mut self, food: String, new_rating: i32)
        requires
            old(self).wf(),
            old(self).food_map().contains_key(food@),
        ensures
            final(self).wf(),
            ({
                let (cuisine, rating) = old(self).food_map()[food@];
                &&& final(self).food_map() == old(self).food_map().insert(
                    food@,
                    (cuisine, new_rating),
                )
                &&& final(self).entries() == old(self).entries().remove(
                    (cuisine, rating, food@),
                ).insert((cuisine, new_rating, food@))
            }),
    {
        let i = match self.find_food(&food) {
            Some(i) => i,
            None => {
                proof {
                    let j = choose|j: int|
                        0 <= j < self.foods@.len() && self.foods@[j].name@ == food@;
                    assert(self.foods@[j].name@ != food@);
                }
                return;
            },
        };
        proof {
            self.lemma_food_at(i as int);
        }
        let cuisine = self.foods[i].cuisine.clone();
        let old_rating = self.foods[i].rating;
        self.remove_entry(&cuisine, old_rating, &food);
        self.add_entry(cuisine.clone(), new_rating, food.clone());
        self.set_food(food, cuisine, new_rating);
    }

    /// The food of `cuisine` that ranks first: highest rating, and among
    /// equal ratings the name that sorts first.
    pub fn highest_rated(&self, cuisine: String) -> (r: String)
        requires
            self.wf(),
            exists|rt: i32, n: Seq<char>| self.entries().contains((cuisine@, rt, n)),
        ensures
            exists|rt: i32|
                {
                    &&& self.entries().contains((cuisine@, rt, r@))
                    &&& forall|t: (Seq<char>, i32, Seq<char>)|
                        #![trigger self.entries().contains(t)]
                        self.entries().contains(t) && t.0 == cuisine@ && (t.1 != rt || t.2 != r@)
                            ==> ranks_before(rt, r@, t.1, t.2)
                },
    {
        let ghost c = cuisine@;
        let ghost rs = self.ranked@;
        let mut best: Option<usize> = None;
        let mut i: usize = 0;
        while i < self.ranked.len()
            invariant
                self.wf(),
                rs == self.ranked@,
                c == cuisine@,
                i <= rs.len(),
                match best {
                    Some(b) => b < i && rs[b as int].cuisine@ == c && forall|j: int|
                        0 <= j < i && #[trigger] rs[j].cuisine@ == c && j != b ==> ranks_before(
                            rs[b as int].entry.rating,
                            rs[b as int].entry.name@,
                            rs[j].entry.rating,
                            rs[j].entry.name@,
                        ),
                    None => forall|j: int| 0 <= j < i ==> #[trigger] rs[j].cuisine@ != c,
                },
            decreases rs.len() - i,
        {
            if self.ranked[i].cuisine == cuisine {
                match best {
                    None => {
                        best = Some(i);
                    },
                    Some(b) => {
                        if self.ranked[i].entry.outranks(&self.ranked[b].entry) {
                            proof {
                                let bi = b as int;
                                assert forall|j: int|
                                    0 <= j < i + 1 && #[trigger] rs[j].cuisine@ == c && j != i
                                        implies ranks_before(
                                    rs[i as int].entry.rating,
                                    rs[i as int].entry.name@,
                                    rs[j].entry.rating,
                                    rs[j].entry.name@,
                                ) by {
                                    if j != bi {
                                        lemma_ranks_transitive(
                                            rs[i as int].entry.rating,
                                            rs[i as int].entry.name@,
                                            rs[bi].entry.rating,
                                            rs[bi].entry.name@,
                                            rs[j].entry.rating,
                                            rs[j].entry.name@,
                                        );
                                    }
                                }
                            }
                            best = Some(i);
                        } else {
                            proof {
                                let bi = b as int;
                                assert(ranked_view(rs[bi]) != ranked_view(rs[i as int]));
                                lemma_ranks_total(
                                    rs[i as int].entry.rating,
                                    rs[i as int].entry.name@,
                                    rs[bi].entry.rating,
                                    rs[bi].entry.name@,
                                );
                            }
                        }
                    },
                }
            }
            i += 1;
        }
        match best {
            Some(b) => {
                let r = self.ranked[b].entry.name.clone();
                proof {
                    let bi = b as int;
                    let rt = rs[bi].entry.rating;
                    assert(ranked_view(rs[bi]) == (c, rt, r@));
                    assert(self.entries().contains((c, rt, r@)));
                    assert forall|t: (Seq<char>, i32, Seq<char>)|
                        #![trigger self.entries().contains(t)]
                        self.entries().contains(t) && t.0 == c && (t.1 != rt || t.2 != r@)
                            implies ranks_before(rt, r@, t.1, t.2) by {
                        let j = choose|j: int| 0 <= j < rs.len() && ranked_view(rs[j]) == t;
                        assert(rs[j].cuisine@ == c);
                    }
                }
                r
            },
            None => {
                proof {
                    let (rt, n) = choose|rt: i32, n: Seq<char>| self.entries().contains((c, rt, n));
                    let j = choose|j: int| 0 <= j < rs.len() && ranked_view(rs[j]) == (c, rt, n);
                    assert(rs[j].cuisine@ == c);
                }
                String::new()
            },
        }
    }

    /// Records that `name` is of `cuisine` and rated `rating`.
    fn set_food(&mut self, name: String, cuisine: String, rating: i32)
        requires
            old(self).wf(),
        ensures
            final(self).wf(),
            final(self).food_map() == old(self).food_map().insert(name@, (cuisine@, rating)),
            final(self).entries() == old(self).entries(),
    {
        let ghost old_map = self.food_map();
        let ghost n = name@;
        let ghost v = (cuisine@, rating);
        match self.find_food(&name) {
            Some(i) => {
                self.foods.set(i, FoodInfo { name, cuisine, rating });
            },
            None => {
                self.foods.push(FoodInfo { name, cuisine, rating });
            },
        }
        proof {
            let fs = self.foods@;
            let ofs = old(self).foods@;
            assert forall|i: int, j: int| 0 <= i < j < fs.len() implies fs[i].name@ != fs[j].name@ by {
                if i < ofs.len() && j < ofs.len() && fs[i] != ofs[i] {
                    assert(fs[j] == ofs[j]);
                } else if i < ofs.len() && j < ofs.len() && fs[j] != ofs[j] {
                    assert(fs[i] == ofs[i]);
                }
            }
            assert(self.wf());
            assert forall|f: Seq<char>| #[trigger] self.food_map().contains_key(f) <==> old_map.insert(
                n,
                v,
            ).contains_key(f) by {
                if self.food_map().contains_key(f) && f != n {
                    let j = choose|j: int| 0 <= j < fs.len() && fs[j].name@ == f;
                    assert(j < ofs.len() && ofs[j] == fs[j]);
                }
                if old_map.contains_key(f) {
                    let j = choose|j: int| 0 <= j < ofs.len() && ofs[j].name@ == f;
                    if fs[j] != ofs[j] {
                        assert(f == n);
                    }
                    assert(fs[j].name@ == f || f == n);
                }
                if f == n {
                    let k = if fs.len() > ofs.len() {
                        ofs.len() as int
                    } else {
                        choose|i: int| 0 <= i < ofs.len() && ofs[i].name@ == n
                    };
                    assert(fs[k].name@ == n);
                }
            }
            assert forall|f: Seq<char>| #[trigger] self.food_map().contains_key(f) implies self.food_map()[f]
                == old_map.insert(n, v)[f] by {
                let j = choose|j: int| 0 <= j < fs.len() && fs[j].name@ == f;
                self.lemma_food_at(j);
                if f != n {
                    assert(j < ofs.len() && ofs[j] == fs[j]);
                    old(self).lemma_food_at(j);
                }
            }
            assert(self.food_map() =~= old_map.insert(n, v));
            assert(self.entries() =~= old(self).entries());
        }
    }

    /// Adds the ranking entry (`cuisine`, `rating`, `name`) if it is new.
    fn add_entry(&mut self, cuisine: String, rating: i32, name: String)
        requires
            old(self).wf(),
        ensures
            final(self).wf(),
            final(self).entries() == old(self).entries().insert((cuisine@, rating, name@)),
            final(self).food_map() == old(self).food_map(),
    {
        let ghost t = (cuisine@, rating, name@);
        match self.find_entry(&cuisine, rating, &name) {
            Some(i) => {
                proof {
                    assert(self.entries() =~= old(self).entries().insert(t));
                }
            },
            None => {
                self.ranked.push(Ranked { cuisine, entry: FoodEntry { rating, name } });
                proof {
                    let rs = self.ranked@;
                    let ors = old(self).ranked@;
                    assert(ranked_view(rs[ors.len() as int]) == t);
                    assert forall|x| #[trigger] self.entries().contains(x) <==> old(
                        self,
                    ).entries().insert(t).contains(x) by {
                        if old(self).entries().contains(x) {
                            let j = choose|j: int| 0 <= j < ors.len() && ranked_view(ors[j]) == x;
                            assert(rs[j] == ors[j]);
                        }
                        if self.entries().contains(x) && x != t {
                            let j = choose|j: int| 0 <= j < rs.len() && ranked_view(rs[j]) == x;
                            assert(rs[j] == ors[j]);
                        }
                    }
                    assert(self.entries() =~= old(self).entries().insert(t));
                    assert(self.food_map() =~= old(self).food_map());
                }
            },
        }
    }

    /// Drops the ranking entry (`cuisine`, `rating`, `name`) if present.
    fn remove_entry(&mut self, cuisine: &String, rating: i32, name: &String)
        requires
            old(self).wf(),
        ensures
            final(self).wf(),
            final(self).entries() == old(self).entries().remove((cuisine@, rating, name@)),
            final(self).food_map() == old(self).food_map(),
    {
        let ghost t = (cuisine@, rating, name@);
        match self.find_entry(cuisine, rating, name) {
            Some(i) => {
                self.ranked.remove(i);
                proof {
                    let rs = self.ranked@;
                    let ors = old(self).ranked@;
                    assert forall|a: int, b: int| 0 <= a < b < rs.len() implies ranked_view(rs[a])
                        != ranked_view(rs[b]) by {
                        let oa = if a < i { a } else { a + 1 };
                        let ob = if b < i { b } else { b + 1 };
                        assert(rs[a] == ors[oa] && rs[b] == ors[ob]);
                    }
                    assert forall|x| #[trigger] self.entries().contains(x) <==> old(
                        self,
                    ).entries().remove(t).contains(x) by {
                        if old(self).entries().contains(x) && x != t {
                            let j = choose|j: int| 0 <= j < ors.len() && ranked_view(ors[j]) == x;
                            assert(j != i);
                            if j < i {
                                assert(rs[j] == ors[j]);
                            } else {
                                assert(rs[j - 1] == ors[j]);
                            }
                        }
                        if self.entries().contains(x) {
                            let j = choose|j: int| 0 <= j < rs.len() && ranked_view(rs[j]) == x;
                            let oj = if j < i { j } else { j + 1 };
                            assert(rs[j] == ors[oj]);
                            if oj < i {
                                assert(ranked_view(ors[oj]) != ranked_view(ors[i as int]));
                            } else {
                                assert(ranked_view(ors[i as int]) != ranked_view(ors[oj]));
                            }
                        }
                    }
                    assert(self.entries() =~= old(self).entries().remove(t));
                    assert(self.food_map() =~= old(self).food_map());
                }
            },
            None => {
                proof {
                    assert(self.entries() =~= old(self).entries().remove(t));
                }
            },
        }
    }
}

} // verus!
