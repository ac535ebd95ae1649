//! The points-to lattice: sets of variable names and environments
//! mapping each variable to the set of variables it may point to.
//!
//! An environment is ordered pointwise by subset; its join is the
//! pointwise union, with an absent entry read as the empty set. Both
//! structures are plain vectors whose views are the mathematical set
//! and map they stand for.
use vstd::prelude::*;

verus! {

/// A set of variable names.
#[derive(Debug)]
pub struct VarSet {
    pub items: Vec<String>,
}

/// The names a `VarSet` holds, in storage order.
pub open spec fn vs_seq(vs: VarSet) -> Seq<Seq<char>> {
    vs.items@.map_values(|s: String| s@)
}

/// A `VarSet` stores each name at most once.
pub open spec fn vs_wf(vs: VarSet) -> bool {
    vs_seq(vs).no_duplicates()
}

impl View for VarSet {
    type V = Set<Seq<char>>;

    open spec fn view(&self) -> Set<Seq<char>> {
        vs_seq(*self).to_set()
    }
}

/// A name sequence is as long as the vector it views.
pub broadcast proof fn lemma_vs_seq_len(vs: VarSet)
    ensures
        #[trigger] vs_seq(vs).len() == vs.items@.len(),
{
}

/// A name sequence views its vector element by element.
pub broadcast proof fn lemma_vs_seq_index(vs: VarSet, k: int)
    requires
        0 <= k < vs.items@.len(),
    ensures
        #![trigger vs_seq(vs), vs.items@[k]]
        vs_seq(vs)[k] == vs.items@[k]@,
{
}

/// A set with no duplicates holds as many names as its vector.
pub proof fn lemma_vs_card(vs: VarSet)
    requires
        vs_wf(vs),
    ensures
        vs@.len() == vs.items@.len(),
        vs@.finite(),
{
    broadcast use lemma_vs_seq_len;

    vs_seq(vs).unique_seq_to_set();
}

impl VarSet {
    /// The empty set of names.
    pub fn new() -> (r: VarSet)
        ensures
            r@ == Set::<Seq<char>>::empty(),
            vs_wf(r),
            r.items@.len() == 0,
    {
        let r = VarSet { items: Vec::new() };
        proof {
            assert(r@ =~= Set::<Seq<char>>::empty());
        }
        r
    }

    /// How many names the set holds.
    pub fn len(&self) -> (n: usize)
        ensures
            n == self.items@.len(),
    {
        self.items.len()
    }

    /// Whether the set holds the name `x`.
    pub fn contains(&self, x: &String) -> (r: bool)
        ensures
            r == self@.contains(x@),
    {
        let ghost vs = *self;
        let n = self.items.len();
        let mut k: usize = 0;
        while k < n
            invariant
                k <= n,
                n == self.items@.len(),
                vs == *self,
                forall|m: int| 0 <= m < k ==> vs_seq(vs)[m] != x@,
            decreases n - k,
        {
            if self.items[k] == *x {
                proof {
                    broadcast use lemma_vs_seq_len, lemma_vs_seq_index;

                    assert(vs_seq(vs)[k as int] == x@);
                    assert(vs_seq(vs).contains(x@));
                }
                return true;
            }
            proof {
                broadcast use lemma_vs_seq_index;

                assert(vs_seq(vs)[k as int] != x@);
            }
            k += 1;
        }
        proof {
            broadcast use lemma_vs_seq_len;

            assert(!vs_seq(vs).contains(x@));
        }
        false
    }

    /// Add the name `x`; reports whether the set grew.
    pub fn insert(&mut self, x: &String) -> (changed: bool)
        requires
            vs_wf(*old(self)),
        ensures
            vs_wf(*final(self)),
            final(self)@ == old(self)@.insert(x@),
            changed == !old(self)@.contains(x@),
            changed ==> final(self).items@.len() == old(self).items@.len() + 1,
            !changed ==> *final(self) == *old(self),
    {
        if self.contains(x) {
            proof {
                assert(old(self)@.insert(x@) =~= old(self)@);
            }
            false
        } else {
            self.items.push(x.clone());
            proof {
                broadcast use lemma_vs_seq_len, lemma_vs_seq_index;
                broadcast use vstd::prelude::Seq::lemma_push_to_set_commute;

                assert(vs_seq(*self) =~= vs_seq(*old(self)).push(x@));
                assert(self@ =~= old(self)@.insert(x@));
            }
            true
        }
    }

    /// Add every name of `src`; reports whether the set grew.
    pub fn union_from(&mut self, src: &VarSet) -> (changed: bool)
        requires
            vs_wf(*old(self)),
        ensures
            vs_wf(*final(self)),
            final(self)@ == old(self)@.union(src@),
            old(self).items@.len() <= final(self).items@.len(),
            changed ==> final(self).items@.len() > old(self).items@.len(),
            !changed ==> *final(self) == *old(self),
    {
        let n = src.items.len();
        let mut k: usize = 0;
        let mut changed = false;
        while k < n
            invariant
                k <= n,
                n == src.items@.len(),
                vs_wf(*self),
                self@ == old(self)@.union(vs_seq(*src).take(k as int).to_set()),
                old(self).items@.len() <= self.items@.len(),
                changed ==> self.items@.len() > old(self).items@.len(),
                !changed ==> *self == *old(self),
            decreases n - k,
        {
            let c = self.insert(&src.items[k]);
            if c {
                changed = true;
            }
            proof {
                broadcast use lemma_vs_seq_len, lemma_vs_seq_index;
                broadcast use vstd::prelude::Seq::lemma_push_to_set_commute;

                assert(vs_seq(*src).take(k + 1) =~= vs_seq(*src).take(k as int).push(
                    vs_seq(*src)[k as int],
                ));
                assert(vs_seq(*src).take(k + 1).to_set() =~= vs_seq(*src).take(
                    k as int,
                ).to_set().insert(src.items@[k as int]@));
                assert(self@ =~= old(self)@.union(vs_seq(*src).take(k + 1).to_set()));
            }
            k += 1;
        }
        proof {
            broadcast use lemma_vs_seq_len;

            assert(vs_seq(*src).take(n as int) =~= vs_seq(*src));
            assert(self@ =~= old(self)@.union(src@));
        }
        changed
    }

    /// A fresh set holding the same names.
    pub fn clone_of(&self) -> (r: VarSet)
        ensures
            r.items@ == self.items@,
            r@ == self@,
            vs_seq(r) == vs_seq(*self),
    {
        let n = self.items.len();
        let mut items: Vec<String> = Vec::new();
        let mut k: usize = 0;
        while k < n
            invariant
                k <= n,
                n == self.items@.len(),
                items@.len() == k,
                forall|m: int| 0 <= m < k ==> items@[m] == self.items@[m],
            decreases n - k,
        {
            items.push(self.items[k].clone());
            k += 1;
        }
        let r = VarSet { items };
        proof {
            assert(r.items@ =~= self.items@);
        }
        r
    }
}

/// A points-to environment: each variable maps to the set of variables
/// it may point to. An absent variable is read as the empty set.
#[derive(Debug)]
pub struct Env {
    pub items: Vec<(String, VarSet)>,
}

/// The variables an entry list records, in storage order.
pub open spec fn env_keys(s: Seq<(String, VarSet)>) -> Seq<Seq<char>> {
    s.map_values(|p: (String, VarSet)| p.0@)
}

/// An environment records each variable at most once, each with a
/// well-formed set.
pub open spec fn env_wf(e: Env) -> bool {
    env_keys(e.items@).no_duplicates() && (forall|k: int|
        0 <= k < e.items@.len() ==> vs_wf(#[trigger] e.items@[k].1))
}

/// The mapping an entry list stands for.
pub open spec fn env_map(s: Seq<(String, VarSet)>) -> Map<Seq<char>, Set<Seq<char>>>
    decreases s.len(),
{
    if s.len() == 0 {
        Map::empty()
    } else {
        env_map(s.drop_last()).insert(s.last().0@, s.last().1@)
    }
}

impl View for Env {
    type V = Map<Seq<char>, Set<Seq<char>>>;

    open spec fn view(&self) -> Map<Seq<char>, Set<Seq<char>>> {
        env_map(self.items@)
    }
}

/// A key sequence is as long as the entry list it views.
pub broadcast proof fn lemma_env_keys_len(s: Seq<(String, VarSet)>)
    ensures
        #[trigger] env_keys(s).len() == s.len(),
{
}

/// A key sequence views its entry list element by element.
pub broadcast proof fn lemma_env_keys_index(s: Seq<(String, VarSet)>, k: int)
    requires
        0 <= k < s.len(),
    ensures
        #![trigger env_keys(s), s[k]]
        env_keys(s)[k] == s[k].0@,
{
}

/// The mapping's domain is exactly the set of recorded variables.
pub proof fn lemma_env_map_dom(s: Seq<(String, VarSet)>)
    ensures
        env_map(s).dom() == env_keys(s).to_set(),
    decreases s.len(),
{
    broadcast use lemma_env_keys_len, lemma_env_keys_index;
    broadcast use vstd::prelude::Seq::lemma_push_to_set_commute;

    if s.len() == 0 {
        assert(env_map(s).dom() =~= env_keys(s).to_set());
    } else {
        lemma_env_map_dom(s.drop_last());
        assert(env_keys(s.drop_last()) =~= env_keys(s).drop_last());
        assert(env_keys(s) =~= env_keys(s).drop_last().push(s.last().0@));
        assert(env_map(s).dom() =~= env_keys(s).to_set());
    }
}

/// With no duplicate variables, the mapping reads each entry's own set.
pub proof fn lemma_env_map_index(s: Seq<(String, VarSet)>, k: int)
    requires
        env_keys(s).no_duplicates(),
        0 <= k < s.len(),
    ensures
        env_map(s).dom().contains(s[k].0@),
        env_map(s)[s[k].0@] == s[k].1@,
    decreases s.len(),
{
    broadcast use lemma_env_keys_len, lemma_env_keys_index;

    if k < s.len() - 1 {
        assert(env_keys(s.drop_last()) =~= env_keys(s).drop_last());
        lemma_env_map_index(s.drop_last(), k);
        assert(s.drop_last()[k] == s[k]);
        assert(s[k].0@ != s.last().0@);
    }
}

/// Replacing one entry's set replaces just that variable's image.
pub proof fn lemma_env_map_update(s: Seq<(String, VarSet)>, k: int, p: (String, VarSet))
    requires
        env_keys(s).no_duplicates(),
        0 <= k < s.len(),
        p.0@ == s[k].0@,
    ensures
        env_map(s.update(k, p)) == env_map(s).insert(p.0@, p.1@),
    decreases s.len(),
{
    broadcast use lemma_env_keys_len, lemma_env_keys_index;

    if k == s.len() - 1 {
        assert(s.update(k, p).drop_last() =~= s.drop_last());
        assert(s.update(k, p).last() == p);
        assert(env_map(s).insert(p.0@, p.1@) =~~= env_map(s.update(k, p)));
    } else {
        assert(s.update(k, p).drop_last() =~= s.drop_last().update(k, p));
        assert(env_keys(s.drop_last()) =~= env_keys(s).drop_last());
        assert(s.drop_last()[k] == s[k]);
        lemma_env_map_update(s.drop_last(), k, p);
        assert(s.update(k, p).last() == s.last());
        assert(s[k].0@ != s.last().0@);
        assert(env_map(s.update(k, p)) =~~= env_map(s).insert(p.0@, p.1@));
    }
}

/// Appending an entry for a fresh variable inserts it into the mapping.
pub proof fn lemma_env_map_push(s: Seq<(String, VarSet)>, p: (String, VarSet))
    ensures
        env_map(s.push(p)) == env_map(s).insert(p.0@, p.1@),
{
    assert(s.push(p).drop_last() =~= s);
}

/// The set a variable points to, with an absent variable read as empty.
pub open spec fn env_get(m: Map<Seq<char>, Set<Seq<char>>>, k: Seq<char>) -> Set<Seq<char>> {
    if m.dom().contains(k) {
        m[k]
    } else {
        Set::empty()
    }
}

/// The lattice order: pointwise subset, with entry presence preserved.
pub open spec fn env_le(a: Map<Seq<char>, Set<Seq<char>>>, b: Map<Seq<char>, Set<Seq<char>>>) -> bool {
    forall|k: Seq<char>|
        #[trigger] a.dom().contains(k) ==> b.dom().contains(k) && a[k].subset_of(b[k])
}

/// The lattice join: pointwise union, keeping every recorded variable.
pub open spec fn env_join(
    a: Map<Seq<char>, Set<Seq<char>>>,
    b: Map<Seq<char>, Set<Seq<char>>>,
) -> Map<Seq<char>, Set<Seq<char>>> {
    Map::new(
        |k: Seq<char>| a.dom().contains(k) || b.dom().contains(k),
        |k: Seq<char>| env_get(a, k).union(env_get(b, k)),
    )
}

/// The order is reflexive and transitive.
pub proof fn lemma_env_le_trans(
    a: Map<Seq<char>, Set<Seq<char>>>,
    b: Map<Seq<char>, Set<Seq<char>>>,
    c: Map<Seq<char>, Set<Seq<char>>>,
)
    requires
        env_le(a, b),
        env_le(b, c),
    ensures
        env_le(a, c),
{
}

/// Joining never loses what either side records: each argument lies
/// below the join.
pub proof fn lemma_env_join_extends(
    a: Map<Seq<char>, Set<Seq<char>>>,
    b: Map<Seq<char>, Set<Seq<char>>>,
)
    ensures
        env_le(a, env_join(a, b)),
        env_le(b, env_join(a, b)),
{
}

/// The join is the least upper bound: it lies below every common
/// upper bound.
pub proof fn lemma_env_join_least(
    a: Map<Seq<char>, Set<Seq<char>>>,
    b: Map<Seq<char>, Set<Seq<char>>>,
    c: Map<Seq<char>, Set<Seq<char>>>,
)
    requires
        env_le(a, c),
        env_le(b, c),
    ensures
        env_le(env_join(a, b), c),
{
}

/// The order is antisymmetric: two environments below each other are
/// the same environment.
pub proof fn lemma_env_le_antisym(
    a: Map<Seq<char>, Set<Seq<char>>>,
    b: Map<Seq<char>, Set<Seq<char>>>,
)
    requires
        env_le(a, b),
        env_le(b, a),
    ensures
        a == b,
{
    assert(a =~~= b);
}

/// How much an entry list stores: one unit per entry plus one per
/// stored name. Every growing update raises it, which bounds the
/// solver's iteration.
pub open spec fn env_size(s: Seq<(String, VarSet)>) -> nat
    decreases s.len(),
{
    if s.len() == 0 {
        0
    } else {
        env_size(s.drop_last()) + 1 + s.last().1.items@.len()
    }
}

/// Replacing one entry changes the store measure by the difference of
/// the two sets' stored names.
pub proof fn lemma_env_size_update(s: Seq<(String, VarSet)>, k: int, p: (String, VarSet))
    requires
        0 <= k < s.len(),
    ensures
        env_size(s.update(k, p)) + s[k].1.items@.len() == env_size(s) + p.1.items@.len(),
    decreases s.len(),
{
    if k == s.len() - 1 {
        assert(s.update(k, p).drop_last() =~= s.drop_last());
        assert(s.update(k, p).last() == p);
    } else {
        assert(s.update(k, p).drop_last() =~= s.drop_last().update(k, p));
        assert(s.update(k, p).last() == s.last());
        assert(s.drop_last()[k] == s[k]);
        lemma_env_size_update(s.drop_last(), k, p);
    }
}

/// Appending an entry raises the store measure by one plus the new
/// set's stored names.
pub proof fn lemma_env_size_push(s: Seq<(String, VarSet)>, p: (String, VarSet))
    ensures
        env_size(s.push(p)) == env_size(s) + 1 + p.1.items@.len(),
{
    assert(s.push(p).drop_last() =~= s);
}

/// Every variable an environment mentions: the recorded ones and all
/// their pointees.
pub open spec fn env_vars(m: Map<Seq<char>, Set<Seq<char>>>) -> Set<Seq<char>> {
    m.dom().union(
        Set::new(
            |x: Seq<char>|
                exists|k: Seq<char>| #[trigger] m.dom().contains(k) && m[k].contains(x),
        ),
    )
}

/// With every entry's set no larger than `c`, the store measure is at
/// most one plus `c` per entry.
proof fn lemma_env_size_linear(s: Seq<(String, VarSet)>, c: nat)
    requires
        forall|k: int| 0 <= k < s.len() ==> #[trigger] s[k].1.items@.len() <= c,
    ensures
        env_size(s) <= s.len() * (1 + c),
    decreases s.len(),
{
    if s.len() == 0 {
    } else {
        assert forall|k: int| 0 <= k < s.drop_last().len() implies #[trigger] s.drop_last()[k].1.items@.len()
            <= c by {
            assert(s.drop_last()[k] == s[k]);
        }
        lemma_env_size_linear(s.drop_last(), c);
        assert(s.last() == s[s.len() - 1]);
        assert((s.len() - 1) * (1 + c) + (1 + c) == s.len() * (1 + c)) by (nonlinear_arith);
    }
}

/// An environment whose variables all come from the finite set `av`
/// stores at most `|av| * (1 + |av|)` units.
pub proof fn lemma_env_size_bounded(e: Env, av: Set<Seq<char>>)
    requires
        env_wf(e),
        av.finite(),
        env_vars(e@).subset_of(av),
    ensures
        env_size(e.items@) <= av.len() * (1 + av.len()),
{
    broadcast use lemma_env_keys_len, lemma_env_keys_index;

    let s = e.items@;
    let keys = env_keys(s);
    lemma_env_map_dom(s);
    // every recorded variable lies in `av`, so there are at most |av| entries
    assert(keys.to_set().subset_of(av)) by {
        assert forall|x: Seq<char>| keys.to_set().contains(x) implies av.contains(x) by {
            assert(e@.dom().contains(x));
            assert(env_vars(e@).contains(x));
        }
    }
    keys.unique_seq_to_set();
    vstd::set_lib::lemma_len_subset(keys.to_set(), av);
    assert(s.len() <= av.len());
    // every entry's set lies in `av`, so each stores at most |av| names
    assert forall|k: int| 0 <= k < s.len() implies #[trigger] s[k].1.items@.len() <= av.len() by {
        lemma_env_map_index(s, k);
        lemma_vs_card(s[k].1);
        assert(s[k].1@.subset_of(av)) by {
            assert forall|x: Seq<char>| s[k].1@.contains(x) implies av.contains(x) by {
                assert(e@.dom().contains(s[k].0@) && e@[s[k].0@].contains(x));
                assert(env_vars(e@).contains(x));
            }
        }
        vstd::set_lib::lemma_len_subset(s[k].1@, av);
    }
    lemma_env_size_linear(s, av.len());
    assert(s.len() * (1 + av.len()) <= av.len() * (1 + av.len())) by (nonlinear_arith)
        requires s.len() <= av.len();
}

impl Env {
    /// The empty environment.
    pub fn new() -> (r: Env)
        ensures
            r@ == Map::<Seq<char>, Set<Seq<char>>>::empty(),
            env_wf(r),
            env_size(r.items@) == 0,
            r.items@.len() == 0,
    {
        let r = Env { items: Vec::new() };
        r
    }

    /// The position of the entry for `key`, if one is recorded.
    fn find(&self, key: &String) -> (r: Option<usize>)
        ensures
            match r {
                Some(k) => k < self.items@.len() && self.items@[k as int].0@ == key@,
                None => forall|k: int| 0 <= k < self.items@.len() ==> (#[trigger] self.items@[k]).0@
                    != key@,
            },
    {
        let n = self.items.len();
        let mut k: usize = 0;
        while k < n
            invariant
                k <= n,
                n == self.items@.len(),
                forall|m: int| 0 <= m < k ==> (#[trigger] self.items@[m]).0@ != key@,
            decreases n - k,
        {
            if self.items[k].0 == *key {
                return Some(k);
            }
            k += 1;
        }
        None
    }

    /// The recorded points-to set of `key`, if any.
    pub fn lookup(&self, key: &String) -> (r: Option<&VarSet>)
        requires
            env_wf(*self),
        ensures
            match r {
                Some(vs) => self@.dom().contains(key@) && vs@ == self@[key@] && vs_wf(*vs),
                None => !self@.dom().contains(key@),
            },
    {
        proof {
            broadcast use lemma_env_keys_len, lemma_env_keys_index;

            lemma_env_map_dom(self.items@);
        }
        match self.find(key) {
            Some(k) => {
                proof {
                    lemma_env_map_index(self.items@, k as int);
                }
                Some(&self.items[k].1)
            },
            None => {
                proof {
                    assert(!env_keys(self.items@).to_set().contains(key@));
                }
                None
            },
        }
    }

    /// A fresh environment recording the same mapping.
    pub fn clone_of(&self) -> (r: Env)
        requires
            env_wf(*self),
        ensures
            r@ == self@,
            env_wf(r),
    {
        let n = self.items.len();
        let mut items: Vec<(String, VarSet)> = Vec::new();
        let mut k: usize = 0;
        while k < n
            invariant
                k <= n,
                n == self.items@.len(),
                items@.len() == k,
                forall|m: int| 0 <= m < k ==> (#[trigger] items@[m]).0 == self.items@[m].0,
                forall|m: int| 0 <= m < k ==> (#[trigger] items@[m]).1.items@
                    == self.items@[m].1.items@,
            decreases n - k,
        {
            let key = self.items[k].0.clone();
            let set = self.items[k].1.clone_of();
            items.push((key, set));
            k += 1;
        }
        let r = Env { items };
        proof {
            lemma_env_map_congruence(r.items@, self.items@);
            assert(env_keys(r.items@) =~= env_keys(self.items@));
            assert forall|m: int| 0 <= m < r.items@.len() implies vs_wf(
                #[trigger] r.items@[m].1,
            ) by {
                assert(vs_seq(r.items@[m].1) =~= vs_seq(self.items@[m].1));
            }
        }
        r
    }

    /// Union `src` into the set recorded for `key`, creating the entry
    /// when absent; reports whether anything was recorded anew.
    pub(crate) fn union_into_key(&mut self, key: &String, src: &VarSet) -> (changed: bool)
        requires
            env_wf(*old(self)),
            vs_wf(*src),
        ensures
            env_wf(*final(self)),
            final(self)@ == old(self)@.insert(key@, env_get(old(self)@, key@).union(src@)),
            env_size(old(self).items@) <= env_size(final(self).items@),
            changed ==> env_size(final(self).items@) > env_size(old(self).items@),
            !changed ==> *final(self) == *old(self),
    {
        proof {
            broadcast use lemma_env_keys_len, lemma_env_keys_index;

            lemma_env_map_dom(self.items@);
        }
        match self.find(key) {
            None => {
                proof {
                    assert(!env_keys(self.items@).to_set().contains(key@));
                    assert(!old(self)@.dom().contains(key@));
                }
                let ghost s0 = self.items@;
                self.items.push((key.clone(), src.clone_of()));
                proof {
                    let p = self.items@.last();
                    assert(self.items@ =~= s0.push(p));
                    lemma_env_map_push(s0, p);
                    assert(p.1@ == src@);
                    assert(env_get(old(self)@, key@).union(src@) =~= src@);
                    lemma_env_size_push(s0, p);
                    assert(env_keys(self.items@) =~= env_keys(s0).push(key@));
                    assert(vs_seq(p.1) =~= vs_seq(*src));
                }
                true
            },
            Some(idx) => {
                // first pass: does `src` add any name at all?
                let ghost set0 = self.items@[idx as int].1;
                proof {
                    lemma_env_map_index(self.items@, idx as int);
                }
                let m = src.items.len();
                let mut kk: usize = 0;
                let mut needs = false;
                while kk < m
                    invariant
                        kk <= m,
                        m == src.items@.len(),
                        idx < self.items@.len(),
                        *self == *old(self),
                        set0 == self.items@[idx as int].1,
                        needs == exists|q: int|
                            0 <= q < kk && !set0@.contains(#[trigger] vs_seq(*src)[q]),
                    decreases m - kk,
                {
                    let c = self.items[idx].1.contains(&src.items[kk]);
                    proof {
                        broadcast use lemma_vs_seq_len, lemma_vs_seq_index;
                    }
                    if !c {
                        proof {
                            assert(!set0@.contains(vs_seq(*src)[kk as int]));
                        }
                        needs = true;
                    }
                    kk += 1;
                }
                if !needs {
                    // nothing to add: `src` lies inside the recorded set
                    proof {
                        broadcast use lemma_vs_seq_len, lemma_vs_seq_index;

                        assert forall|x: Seq<char>| src@.contains(x) implies set0@.contains(
                            x,
                        ) by {
                            let q = choose|q: int|
                                0 <= q < vs_seq(*src).len() && vs_seq(*src)[q] == x;
                            assert(set0@.contains(vs_seq(*src)[q]));
                        }
                        assert(env_get(old(self)@, key@).union(src@) =~= old(self)@[key@]);
                        assert(old(self)@.insert(key@, old(self)@[key@]) =~~= old(self)@);
                    }
                    false
                } else {
                    let mut set = self.items[idx].1.clone_of();
                    let grew = set.union_from(src);
                    proof {
                        assert(vs_seq(set0) == vs_seq(old(self).items@[idx as int].1));
                        if !grew {
                            let q = choose|q: int|
                                0 <= q < kk && !set0@.contains(vs_seq(*src)[q]);
                            broadcast use lemma_vs_seq_len, lemma_vs_seq_index;

                            assert(set@ == set0@.union(src@));
                            assert(set@.contains(vs_seq(*src)[q]));
                            assert(false);
                        }
                    }
                    let newkey = self.items[idx].0.clone();
                    let ghost s0 = self.items@;
                    self.items.set(idx, (newkey, set));
                    proof {
                        lemma_env_map_update(s0, idx as int, s0[idx as int]);
                        lemma_env_map_update(s0, idx as int, self.items@[idx as int]);
                        assert(self.items@ =~= s0.update(idx as int, self.items@[idx as int]));
                        assert(self.items@[idx as int].1@ == set0@.union(src@));
                        assert(env_get(old(self)@, key@).union(src@) =~= set0@.union(src@));
                        lemma_env_size_update(s0, idx as int, self.items@[idx as int]);
                        assert(env_keys(self.items@) =~= env_keys(s0));
                    }
                    true
                }
            },
        }
    }
}

/// Entry lists equal key by key and set by set stand for the same
/// mapping.
proof fn lemma_env_map_congruence(a: Seq<(String, VarSet)>, b: Seq<(String, VarSet)>)
    requires
        a.len() == b.len(),
        forall|k: int| 0 <= k < a.len() ==> (#[trigger] a[k]).0 == b[k].0,
        forall|k: int| 0 <= k < a.len() ==> (#[trigger] a[k]).1.items@ == b[k].1.items@,
    ensures
        env_map(a) == env_map(b),
    decreases a.len(),
{
    if a.len() == 0 {
        assert(env_map(a) =~~= env_map(b));
    } else {
        assert forall|k: int| 0 <= k < a.drop_last().len() implies (#[trigger] a.drop_last()[k]).0
            == b.drop_last()[k].0 && a.drop_last()[k].1.items@ == b.drop_last()[k].1.items@ by {
            assert(a.drop_last()[k] == a[k]);
            assert(b.drop_last()[k] == b[k]);
        }
        lemma_env_map_congruence(a.drop_last(), b.drop_last());
        assert(a.last() == a[a.len() - 1]);
        assert(b.last() == b[a.len() - 1]);
        assert(vs_seq(a.last().1) =~= vs_seq(b.last().1));
        assert(a.last().1@ =~= b.last().1@);
        assert(env_map(a) =~~= env_map(b));
    }
}

} // verus!
