//! Ingredients by name, and baking: cookies are baked one after another from a pantry
//! while every ingredient of the recipe is there in full.

use vstd::prelude::*;

verus! {

/// Amounts of ingredients, by name; every name occurs once.
pub struct Ingredients {
    entries: Vec<(String, u64)>,
}

/// The map that a list of named amounts with distinct names stands for.
pub open spec fn entries_map(e: Seq<(String, u64)>) -> Map<Seq<char>, u64> {
    Map::new(
        |k: Seq<char>| exists|i: int| 0 <= i < e.len() && (#[trigger] e[i]).0@ == k,
        |k: Seq<char>| e[choose|i: int| 0 <= i < e.len() && (#[trigger] e[i]).0@ == k].1,
    )
}

pub open spec fn names_distinct(e: Seq<(String, u64)>) -> bool {
    forall|i: int, j: int|
        0 <= i < e.len() && 0 <= j < e.len() && i != j ==> (#[trigger] e[i]).0@ != (
        #[trigger] e[j]).0@
}

proof fn lemma_entry_in_map(e: Seq<(String, u64)>, i: int)
    requires
        names_distinct(e),
        0 <= i < e.len(),
    ensures
        entries_map(e).contains_key(e[i].0@),
        entries_map(e)[e[i].0@] == e[i].1,
{
    let k = e[i].0@;
    assert(entries_map(e).dom().contains(k));
    let j = choose|j: int| 0 <= j < e.len() && (#[trigger] e[j]).0@ == k;
    assert(j == i);
}

proof fn lemma_map_push(e: Seq<(String, u64)>, s: String, v: u64)
    requires
        names_distinct(e),
        !entries_map(e).contains_key(s@),
    ensures
        names_distinct(e.push((s, v))),
        entries_map(e.push((s, v))) == entries_map(e).insert(s@, v),
{
    let e2 = e.push((s, v));
    assert forall|i: int, j: int|
        0 <= i < e2.len() && 0 <= j < e2.len() && i != j implies (#[trigger] e2[i]).0@ != (
        #[trigger] e2[j]).0@ by {
        if i < e.len() && j < e.len() {
            assert(e2[i] == e[i] && e2[j] == e[j]);
        } else if i < e.len() {
            assert(e2[i] == e[i]);
            assert(entries_map(e).contains_key(e[i].0@));
        } else if j < e.len() {
            assert(e2[j] == e[j]);
            assert(entries_map(e).contains_key(e[j].0@));
        }
    }
    let m2 = entries_map(e2);
    let m1 = entries_map(e).insert(s@, v);
    assert forall|k: Seq<char>| m2.contains_key(k) <==> m1.contains_key(k) by {
        if m2.contains_key(k) {
            let i = choose|i: int| 0 <= i < e2.len() && (#[trigger] e2[i]).0@ == k;
            if i < e.len() {
                assert(e2[i] == e[i]);
            }
        }
        if m1.contains_key(k) && k != s@ {
            let i = choose|i: int| 0 <= i < e.len() && (#[trigger] e[i]).0@ == k;
            assert(e2[i] == e[i]);
        }
        if k == s@ {
            assert(e2[e.len() as int].0@ == k);
        }
    }
    assert forall|k: Seq<char>| #[trigger] m2.contains_key(k) implies m2[k] == m1[k] by {
        let i = choose|i: int| 0 <= i < e2.len() && (#[trigger] e2[i]).0@ == k;
        lemma_entry_in_map(e2, i);
        if i < e.len() {
            assert(e2[i] == e[i]);
            lemma_entry_in_map(e, i);
        }
    }
    assert(m2 =~= m1);
}

proof fn lemma_map_update(e: Seq<(String, u64)>, i: int, s: String, v: u64)
    requires
        names_distinct(e),
        0 <= i < e.len(),
        s@ == e[i].0@,
    ensures
        names_distinct(e.update(i, (s, v))),
        entries_map(e.update(i, (s, v))) == entries_map(e).insert(s@, v),
{
    let e2 = e.update(i, (s, v));
    assert forall|a: int, b: int|
        0 <= a < e2.len() && 0 <= b < e2.len() && a != b implies (#[trigger] e2[a]).0@ != (
        #[trigger] e2[b]).0@ by {
        assert(e2[a].0@ == e[a].0@);
        assert(e2[b].0@ == e[b].0@);
    }
    let m2 = entries_map(e2);
    let m1 = entries_map(e).insert(s@, v);
    lemma_entry_in_map(e, i);
    assert forall|k: Seq<char>| m2.contains_key(k) <==> m1.contains_key(k) by {
        if m2.contains_key(k) {
            let j = choose|j: int| 0 <= j < e2.len() && (#[trigger] e2[j]).0@ == k;
            assert(e[j].0@ == k);
        }
        if m1.contains_key(k) && k != s@ {
            let j = choose|j: int| 0 <= j < e.len() && (#[trigger] e[j]).0@ == k;
            assert(e2[j].0@ == k);
        }
        if k == s@ {
            assert(e2[i].0@ == k);
        }
    }
    assert forall|k: Seq<char>| #[trigger] m2.contains_key(k) implies m2[k] == m1[k] by {
        let j = choose|j: int| 0 <= j < e2.len() && (#[trigger] e2[j]).0@ == k;
        lemma_entry_in_map(e2, j);
        if j != i {
            assert(e2[j] == e[j]);
            lemma_entry_in_map(e, j);
        }
    }
    assert(m2 =~= m1);
}

impl View for Ingredients {
    type V = Map<Seq<char>, u64>;

    closed spec fn view(&self) -> Map<Seq<char>, u64> {
        entries_map(self.entries@)
    }
}

impl Ingredients {
    #[verifier::type_invariant]
    spec fn names_are_distinct(self) -> bool {
        names_distinct(self.entries@)
    }

    /// No ingredients.
    pub fn new() -> (r: Self)
        ensures
            r@ == Map::<Seq<char>, u64>::empty(),
    {
        let r = Ingredients { entries: Vec::new() };
        assert(r@ =~= Map::<Seq<char>, u64>::empty());
        r
    }

    /// Where `name` stands in the list.
    fn position(&self, name: &String) -> (r: Option<usize>)
        ensures
            r is None <==> !self@.contains_key(name@),
            r matches Some(i) ==> i < self.entries@.len() && self.entries@[i as int].0@ == name@,
    {
        proof {
            use_type_invariant(self);
        }
        let mut i: usize = 0;
        while i < self.entries.len()
            invariant
                i <= self.entries@.len(),
                forall|j: int| 0 <= j < i ==> (#[trigger] self.entries@[j]).0@ != name@,
            decreases self.entries@.len() - i,
        {
            if self.entries[i].0 == *name {
                return Some(i);
            }
            i = i + 1;
        }
        None
    }

    /// The amount of `name`, if it is there.
    pub fn get(&self, name: &String) -> (r: Option<u64>)
        ensures
            r == (if self@.contains_key(name@) {
                Some(self@[name@])
            } else {
                None::<u64>
            }),
    {
        proof {
            use_type_invariant(self);
        }
        match self.position(name) {
            Some(i) => {
                proof {
                    lemma_entry_in_map(self.entries@, i as int);
                }
                Some(self.entries[i].1)
            },
            None => None,
        }
    }

    /// Sets the amount of `name`, adding it if it is not there.
    pub fn insert(&mut self, name: String, amount: u64)
        ensures
            final(self)@ == old(self)@.insert(name@, amount),
    {
        proof {
            use_type_invariant(&*self);
        }
        let found = self.position(&name);
        let mut e: Vec<(String, u64)> = Vec::new();
        std::mem::swap(&mut e, &mut self.entries);
        match found {
            Some(i) => {
                proof {
                    lemma_map_update(e@, i as int, name, amount);
                }
                e.set(i, (name, amount));
            },
            None => {
                proof {
                    lemma_map_push(e@, name, amount);
                }
                e.push((name, amount));
            },
        }
        self.entries = e;
    }

    /// The number of ingredients.
    pub fn len(&self) -> (r: usize)
        ensures
            r == self@.dom().len(),
    {
        proof {
            use_type_invariant(self);
            lemma_dom_len(self.entries@);
        }
        self.entries.len()
    }

    /// The ingredients with their amounts, each once, in no particular order.
    pub fn to_vec(&self) -> (r: Vec<(String, u64)>)
        ensures
            names_distinct(r@),
            entries_map(r@) == self@,
    {
        proof {
            use_type_invariant(self);
        }
        let mut r: Vec<(String, u64)> = Vec::new();
        let mut i: usize = 0;
        while i < self.entries.len()
            invariant
                i <= self.entries@.len(),
                r@ == self.entries@.take(i as int),
            decreases self.entries@.len() - i,
        {
            let name = self.entries[i].0.clone();
            r.push((name, self.entries[i].1));
            assert(r@ =~= self.entries@.take(i + 1));
            i = i + 1;
        }
        assert(r@ =~= self.entries@);
        r
    }

    /// A copy with the same amounts.
    pub fn duplicate(&self) -> (r: Self)
        ensures
            r@ == self@,
    {
        proof {
            use_type_invariant(self);
        }
        Ingredients { entries: self.to_vec() }
    }
}

proof fn lemma_dom_len(e: Seq<(String, u64)>)
    requires
        names_distinct(e),
    ensures
        entries_map(e).dom().len() == e.len(),
        entries_map(e).dom().finite(),
    decreases e.len(),
{
    if e.len() == 0 {
        assert(entries_map(e).dom() =~= Set::<Seq<char>>::empty());
    } else {
        let e1 = e.drop_last();
        let last = e.last();
        assert(names_distinct(e1)) by {
            assert forall|i: int, j: int|
                0 <= i < e1.len() && 0 <= j < e1.len() && i != j implies (#[trigger] e1[i]).0@
                != (#[trigger] e1[j]).0@ by {
                assert(e1[i] == e[i] && e1[j] == e[j]);
            }
        }
        lemma_dom_len(e1);
        assert(!entries_map(e1).contains_key(last.0@)) by {
            if entries_map(e1).contains_key(last.0@) {
                let i = choose|i: int| 0 <= i < e1.len() && (#[trigger] e1[i]).0@ == last.0@;
                assert(e[i] == e1[i]);
                assert(e[e.len() - 1] == last);
            }
        }
        lemma_map_push(e1, last.0, last.1);
        assert(e1.push(last) =~= e);
        assert(entries_map(e).dom() =~= entries_map(e1).dom().insert(last.0@));
    }
}

/// What the pantry holds of `k`; nothing where it has no entry.
pub open spec fn stock(m: Map<Seq<char>, u64>, k: Seq<char>) -> int {
    if m.contains_key(k) {
        m[k] as int
    } else {
        0
    }
}

/// The pantry holds enough of every ingredient of the recipe for `n` cookies.
pub open spec fn can_bake(pantry: Map<Seq<char>, u64>, recipe: Map<Seq<char>, u64>, n: int) -> bool {
    forall|k: Seq<char>| #[trigger] recipe.contains_key(k) ==> n * recipe[k] <= stock(pantry, k)
}

/// The pantry after `n` cookies: every ingredient of the recipe is taken `n` times, and
/// once a cookie is baked, every ingredient of the recipe has an entry, if only of zero.
pub open spec fn after_baking(
    pantry: Map<Seq<char>, u64>,
    recipe: Map<Seq<char>, u64>,
    n: int,
) -> Map<Seq<char>, u64> {
    if n == 0 {
        pantry
    } else {
        Map::new(
            |k: Seq<char>| pantry.contains_key(k) || recipe.contains_key(k),
            |k: Seq<char>| (stock(pantry, k) - n * stock(recipe, k)) as u64,
        )
    }
}

/// Some ingredient of the recipe is needed in an amount above zero, so that baking
/// comes to an end.
pub open spec fn needs_something(recipe: Map<Seq<char>, u64>) -> bool {
    exists|k: Seq<char>| #[trigger] recipe.contains_key(k) && recipe[k] > 0
}

proof fn lemma_take_step(e: Seq<(String, u64)>, i: int)
    requires
        names_distinct(e),
        0 <= i < e.len(),
    ensures
        names_distinct(e.take(i)),
        !entries_map(e.take(i)).contains_key(e[i].0@),
        names_distinct(e.take(i + 1)),
        entries_map(e.take(i + 1)) == entries_map(e.take(i)).insert(e[i].0@, e[i].1),
{
    let t = e.take(i);
    assert forall|a: int, b: int|
        0 <= a < t.len() && 0 <= b < t.len() && a != b implies (#[trigger] t[a]).0@ != (
        #[trigger] t[b]).0@ by {
        assert(t[a] == e[a] && t[b] == e[b]);
    }
    if entries_map(t).contains_key(e[i].0@) {
        let j = choose|j: int| 0 <= j < t.len() && (#[trigger] t[j]).0@ == e[i].0@;
        assert(t[j] == e[j]);
    }
    lemma_map_push(t, e[i].0, e[i].1);
    assert(t.push(e[i]) =~= e.take(i + 1));
}

/// The stock of every ingredient after `n` cookies.
proof fn lemma_stock_after(p: Map<Seq<char>, u64>, r: Map<Seq<char>, u64>, n: int, k: Seq<char>)
    requires
        n >= 0,
        can_bake(p, r, n),
    ensures
        stock(after_baking(p, r, n), k) == stock(p, k) - n * stock(r, k),
        after_baking(p, r, n).contains_key(k) <==> (p.contains_key(k) || (n > 0
            && r.contains_key(k))),
{
    if n > 0 {
        let x = stock(r, k);
        assert(0 <= n * x) by (nonlinear_arith)
            requires
                n >= 0,
                x >= 0,
        ;
        if r.contains_key(k) {
            assert(n * r[k] <= stock(p, k));
        } else {
            assert(n * x == 0) by (nonlinear_arith)
                requires
                    x == 0,
            ;
        }
    } else {
        assert(n * stock(r, k) == 0) by (nonlinear_arith)
            requires
                n == 0,
        ;
    }
}

/// Baking one more cookie from the pantry left by `n` cookies gives what baking `n + 1`
/// cookies gives, and is possible exactly where `n + 1` cookies are.
pub proof fn lemma_bake_more(p: Map<Seq<char>, u64>, r: Map<Seq<char>, u64>, n: int)
    requires
        n >= 0,
        can_bake(p, r, n),
        can_bake(after_baking(p, r, n), r, 1),
    ensures
        can_bake(p, r, n + 1),
        after_baking(after_baking(p, r, n), r, 1) == after_baking(p, r, n + 1),
{
    let q = after_baking(p, r, n);
    assert forall|k: Seq<char>| #[trigger] r.contains_key(k) implies (n + 1) * r[k] <= stock(
        p,
        k,
    ) by {
        lemma_stock_after(p, r, n, k);
        let x = r[k] as int;
        assert((n + 1) * x == n * x + x) by (nonlinear_arith);
        assert(1 * r[k] <= stock(q, k));
    }
    let m1 = after_baking(q, r, 1);
    let m2 = after_baking(p, r, n + 1);
    assert forall|k: Seq<char>| m1.contains_key(k) <==> m2.contains_key(k) by {
        lemma_stock_after(p, r, n, k);
    }
    assert forall|k: Seq<char>| #[trigger] m1.contains_key(k) implies m1[k] == m2[k] by {
        lemma_stock_after(p, r, n, k);
        let x = stock(r, k);
        assert((n + 1) * x == n * x + x) by (nonlinear_arith);
        assert(1 * x == x);
    }
    assert(m1 =~= m2);
}

/// Where the pantry left by `n` cookies falls short for one more, it falls short for
/// `n + 1` from the start.
pub proof fn lemma_bake_stop(p: Map<Seq<char>, u64>, r: Map<Seq<char>, u64>, n: int)
    requires
        n >= 0,
        can_bake(p, r, n),
        !can_bake(after_baking(p, r, n), r, 1),
    ensures
        !can_bake(p, r, n + 1),
{
    let q = after_baking(p, r, n);
    let k = choose|k: Seq<char>| #[trigger] r.contains_key(k) && !(1 * r[k] <= stock(q, k));
    lemma_stock_after(p, r, n, k);
    let x = r[k] as int;
    assert((n + 1) * x == n * x + x) by (nonlinear_arith);
}

/// One cookie: every ingredient of the recipe is taken
/// from a copy of the pantry, an ingredient without an entry counting as zero; `None`
/// where an ingredient falls short.
pub fn bake_one(pantry: &Ingredients, recipe: &Ingredients) -> (r: Option<Ingredients>)
    ensures
        r is Some <==> can_bake(pantry@, recipe@, 1),
        r matches Some(q) ==> q@ == after_baking(pantry@, recipe@, 1),
{
    proof {
        use_type_invariant(recipe);
    }
    let mut next = pantry.duplicate();
    let mut i: usize = 0;
    let ghost e = recipe.entries@;
    assert(e.take(0) =~= Seq::<(String, u64)>::empty());
    assert(entries_map(e.take(0)) =~= Map::<Seq<char>, u64>::empty());
    while i < recipe.entries.len()
        invariant
            e == recipe.entries@,
            names_distinct(e),
            recipe@ == entries_map(e),
            i <= e.len(),
            forall|k: Seq<char>| #[trigger]
                entries_map(e.take(i as int)).contains_key(k) ==> recipe@.contains_key(k)
                    && entries_map(e.take(i as int))[k] == recipe@[k] && recipe@[k] <= stock(
                    pantry@,
                    k,
                ),
            next@ == Map::new(
                |k: Seq<char>|
                    pantry@.contains_key(k) || entries_map(e.take(i as int)).contains_key(k),
                |k: Seq<char>|
                    (stock(pantry@, k) - stock(entries_map(e.take(i as int)), k)) as u64,
            ),
        decreases e.len() - i,
    {
        let ghost done = entries_map(e.take(i as int));
        let name = &recipe.entries[i].0;
        let amount = recipe.entries[i].1;
        proof {
            lemma_take_step(e, i as int);
            lemma_entry_in_map(e, i as int);
        }
        let have = match next.get(name) {
            Some(v) => v,
            None => 0,
        };
        assert(have == stock(pantry@, name@));
        if have < amount {
            assert(!(1 * recipe@[name@] <= stock(pantry@, name@)));
            return None;
        }
        next.insert(name.clone(), have - amount);
        proof {
            let done2 = entries_map(e.take(i + 1));
            assert(done2 == done.insert(name@, amount));
            assert(next@ =~= Map::new(
                |k: Seq<char>| pantry@.contains_key(k) || done2.contains_key(k),
                |k: Seq<char>| (stock(pantry@, k) - stock(done2, k)) as u64,
            ));
        }
        i = i + 1;
    }
    proof {
        assert(e.take(i as int) =~= e);
        assert forall|k: Seq<char>| #[trigger] recipe@.contains_key(k) implies 1 * recipe@[k]
            <= stock(pantry@, k) by {}
        assert(next@ =~= after_baking(pantry@, recipe@, 1));
    }
    Some(next)
}

impl Ingredients {
    /// Whether some ingredient is needed in an amount above zero.
    pub fn needs_something(&self) -> (r: bool)
        ensures
            r == needs_something(self@),
    {
        proof {
            use_type_invariant(self);
        }
        let mut i: usize = 0;
        while i < self.entries.len()
            invariant
                i <= self.entries@.len(),
                names_distinct(self.entries@),
                forall|j: int| 0 <= j < i ==> (#[trigger] self.entries@[j]).1 == 0,
            decreases self.entries@.len() - i,
        {
            if self.entries[i].1 > 0 {
                proof {
                    lemma_entry_in_map(self.entries@, i as int);
                }
                return true;
            }
            i = i + 1;
        }
        proof {
            if needs_something(self@) {
                let k = choose|k: Seq<char>| #[trigger] self@.contains_key(k) && self@[k] > 0;
                let j = choose|j: int|
                    0 <= j < self.entries@.len() && (#[trigger] self.entries@[j]).0@ == k;
                lemma_entry_in_map(self.entries@, j);
            }
        }
        false
    }
}

/// What baking leaves: the number of cookies, and the pantry.
pub struct Baked {
    pub cookies: u64,
    pub pantry: Ingredients,
}

/// Bakes cookies one after another while the pantry holds every ingredient of the
/// recipe in full. The recipe must need some ingredient in an amount above zero, else
/// baking would never end.
pub fn bake(recipe: &Ingredients, pantry: &Ingredients) -> (r: Baked)
    requires
        needs_something(recipe@),
    ensures
        can_bake(pantry@, recipe@, r.cookies as int),
        !can_bake(pantry@, recipe@, r.cookies + 1),
        r.pantry@ == after_baking(pantry@, recipe@, r.cookies as int),
{
    let ghost k0 = choose|k: Seq<char>| #[trigger] recipe@.contains_key(k) && recipe@[k] > 0;
    let mut cookies: u64 = 0;
    let mut current = pantry.duplicate();
    assert(can_bake(pantry@, recipe@, 0)) by {
        assert forall|k: Seq<char>| #[trigger] recipe@.contains_key(k) implies 0 * recipe@[k]
            <= stock(pantry@, k) by {}
    }
    loop
        invariant
            recipe@.contains_key(k0),
            recipe@[k0] > 0,
            can_bake(pantry@, recipe@, cookies as int),
            current@ == after_baking(pantry@, recipe@, cookies as int),
        ensures
            !can_bake(pantry@, recipe@, cookies + 1),
        decreases stock(pantry@, k0) - cookies * recipe@[k0],
    {
        match bake_one(&current, recipe) {
            Some(next) => {
                proof {
                    lemma_bake_more(pantry@, recipe@, cookies as int);
                    let c = cookies as int;
                    let x = recipe@[k0] as int;
                    assert((c + 1) * x <= stock(pantry@, k0));
                    assert(c + 1 <= (c + 1) * x && (c + 1) * x == c * x + x) by (nonlinear_arith)
                        requires
                            c >= 0,
                            x >= 1,
                    ;
                }
                cookies = cookies + 1;
                current = next;
            },
            None => {
                proof {
                    lemma_bake_stop(pantry@, recipe@, cookies as int);
                }
                break;
            },
        }
    }
    Baked { cookies, pantry: current }
}

/// The number of cookies that baking gives is the least quotient: for every ingredient
/// needed in an amount above zero, its stock divided by that amount is at least the
/// number of cookies, and for one of them it is that number exactly.
pub proof fn lemma_cookies_are_the_least_quotient(
    pantry: Map<Seq<char>, u64>,
    recipe: Map<Seq<char>, u64>,
    n: int,
)
    requires
        n >= 0,
        can_bake(pantry, recipe, n),
        !can_bake(pantry, recipe, n + 1),
    ensures
        forall|k: Seq<char>|
            #[trigger] recipe.contains_key(k) && recipe[k] > 0 ==> n <= stock(pantry, k) / (
            recipe[k] as int),
        exists|k: Seq<char>|
            #[trigger] recipe.contains_key(k) && recipe[k] > 0 && stock(pantry, k) / (
            recipe[k] as int) == n,
{
    assert forall|k: Seq<char>| #[trigger]
        recipe.contains_key(k) && recipe[k] > 0 implies n <= stock(pantry, k) / (
    recipe[k] as int) by {
        let x = recipe[k] as int;
        let s = stock(pantry, k);
        assert(n * x <= s);
        assert(n <= s / x) by (nonlinear_arith)
            requires
                n * x <= s,
                x > 0,
                n >= 0,
        ;
    }
    let k = choose|k: Seq<char>| #[trigger]
        recipe.contains_key(k) && !((n + 1) * recipe[k] <= stock(pantry, k));
    let x = recipe[k] as int;
    let s = stock(pantry, k);
    assert(x > 0) by (nonlinear_arith)
        requires
            (n + 1) * x > s,
            s >= 0,
            x >= 0,
            n >= 0,
    ;
    assert(n * x <= s);
    assert(s / x == n) by (nonlinear_arith)
        requires
            n * x <= s,
            (n + 1) * x > s,
            x > 0,
            n >= 0,
    ;
    assert(recipe.contains_key(k) && recipe[k] > 0 && stock(pantry, k) / (recipe[k] as int) == n);
}

} // verus!
