use vstd::arithmetic::div_mod::lemma_mod_pos_bound;
use vstd::arithmetic::div_mod::lemma_mod_self_0;
use vstd::arithmetic::div_mod::lemma_small_mod;
use vstd::prelude::*;

verus! {

/// A category of rank `later` may be acquired right after one of rank `last` exactly when it
/// stands strictly below it.
pub open spec fn follows(later: nat, last: nat) -> bool {
    later < last
}

/// In an order of `len` categories, only the innermost one, of rank `len - 1`, may open a chain.
pub open spec fn opens(later: nat, len: nat) -> bool {
    later + 1 == len
}

/// Why a declaration of an order is refused.
#[derive(Debug, PartialEq, Eq, Structural)]
pub enum OrderError {
    /// The same category appears twice in the list.
    DuplicateCategory,
}

/// A global order over a fixed list of categories, each named by an integer identifier.
///
/// The list runs from the outermost category (acquired last in a chain) to the innermost
/// (acquired first); a category's rank is its position in the list.
///
/// Each category remembers the list of the order it came from, and an acquisition is admitted
/// only between categories of one and the same list: categories of two different orders never
/// meet in a chain.
pub struct Order {
    categories: Vec<u64>,
}

/// A category of a declared order: its identifier, its rank, and the order's list.
#[derive(Debug)]
pub struct Category {
    id: u64,
    rank: usize,
    order: Vec<u64>,
}

/// Whether a category `id` of the declared order `order` may be locked with a token whose last
/// category is `held` (that category's order and identifier), or that opens a chain when `held`
/// is `None`: only categories of the same order meet, and the order must declare `id` after the
/// held one.
pub open spec fn admits(order: Seq<u64>, id: u64, held: Option<(Seq<u64>, u64)>) -> bool {
    match held {
        None => declared_after(order, id, None),
        Some((o, l)) => o == order && declared_after(order, id, Some(l)),
    }
}

impl View for Order {
    type V = Seq<u64>;

    closed spec fn view(&self) -> Seq<u64> {
        self.categories@
    }
}

/// The relation that declaring `s` establishes between identifiers: `later` may open a chain
/// (`last` is `None`) exactly when it is the last of `s`, and may be acquired right after `last`
/// exactly when both are declared and `last` at a later position than `later`.
pub open spec fn declared_after(s: Seq<u64>, later: u64, last: Option<u64>) -> bool {
    match last {
        None => s.len() > 0 && s.last() == later,
        Some(l) => exists|k: int, j: int|
            #![trigger s[k], s[j]]
            0 <= k < j < s.len() && s[k] == later && s[j] == l,
    }
}

impl Order {
    /// Declares the order `categories`, outermost first.
    ///
    /// Refused when an identifier occurs twice.
    pub fn declare(categories: Vec<u64>) -> (r: Result<Order, OrderError>)
        ensures
            r is Ok <==> categories@.no_duplicates(),
            r matches Ok(o) ==> o@ == categories@,
            r is Err ==> r == Err::<Order, OrderError>(OrderError::DuplicateCategory),
    {
        let n = categories.len();
        let mut i: usize = 0;
        while i < n
            invariant
                n == categories@.len(),
                i <= n,
                forall|a: int, b: int| 0 <= a < i && a < b < n ==> categories@[a] != categories@[b],
            decreases n - i,
        {
            let mut j: usize = i + 1;
            while j < n
                invariant
                    n == categories@.len(),
                    i < n,
                    i + 1 <= j <= n,
                    forall|a: int, b: int| 0 <= a < i && a < b < n ==> categories@[a] != categories@[b],
                    forall|b: int| i < b < j ==> categories@[i as int] != categories@[b],
                decreases n - j,
            {
                if categories[i] == categories[j] {
                    assert(!categories@.no_duplicates());
                    return Err(OrderError::DuplicateCategory);
                }
                j = j + 1;
            }
            i = i + 1;
        }
        Ok(Order { categories })
    }

    /// A declared order is free of duplicates.
    #[verifier::type_invariant]
    spec fn wf(&self) -> bool {
        self.categories@.no_duplicates()
    }

    /// Returns the category `id`, with its rank, or `None` when `id` is not declared.
    pub fn category(&self, id: u64) -> (r: Option<Category>)
        ensures
            r is Some <==> self@.contains(id),
            r matches Some(c) ==> {
                &&& c.spec_rank() < self@.len()
                &&& self@[c.spec_rank() as int] == id
                &&& c.order_ids() == self@
                &&& c.spec_id() == id
            },
    {
        proof {
            use_type_invariant(self);
        }
        let n = self.categories.len();
        let mut i: usize = 0;
        while i < n
            invariant
                n == self@.len(),
                i <= n,
                forall|a: int| 0 <= a < i ==> self@[a] != id,
                self@.no_duplicates(),
            decreases n - i,
        {
            if self.categories[i] == id {
                let order = copy_ids(&self.categories);
                assert(order@[i as int] == id);
                return Some(Category { id, rank: i, order });
            }
            i = i + 1;
        }
        None
    }

    /// Whether this order lets category `later` be acquired right after category `last`, or
    /// first in a chain when `last` is `None`.
    pub fn after(&self, later: u64, last: Option<u64>) -> (r: bool)
        ensures
            r == declared_after(self@, later, last),
    {
        proof {
            use_type_invariant(self);
        }
        match self.category(later) {
            None => false,
            Some(c) => match last {
                None => c.opens_chain(),
                Some(l) => match self.category(l) {
                    None => false,
                    Some(d) => {
                        assert(declared_after(self@, later, last) ==> c.rank < d.rank);
                        if c.rank < d.rank {
                            assert(self@[c.rank as int] == later && self@[d.rank as int] == l);
                        }
                        c.rank < d.rank
                    },
                },
            },
        }
    }
}

/// A copy of the identifiers `v`.
fn copy_ids(v: &Vec<u64>) -> (r: Vec<u64>)
    ensures
        r@ == v@,
{
    let mut r: Vec<u64> = Vec::new();
    let mut i: usize = 0;
    while i < v.len()
        invariant
            i <= v@.len(),
            r@ == v@.subrange(0, i as int),
        decreases v@.len() - i,
    {
        r.push(v[i]);
        i = i + 1;
    }
    assert(r@ =~= v@);
    r
}

impl Category {
    /// A category knows its place in a list free of duplicates.
    #[verifier::type_invariant]
    spec fn wf(&self) -> bool {
        &&& self.order@.no_duplicates()
        &&& self.rank < self.order@.len()
        &&& self.order@[self.rank as int] == self.id
    }

    /// The identifier of this category.
    pub closed spec fn spec_id(&self) -> u64 {
        self.id
    }

    /// The rank of this category in its order.
    pub closed spec fn spec_rank(&self) -> nat {
        self.rank as nat
    }

    /// The identifiers of this category's order, outermost first.
    pub closed spec fn order_ids(&self) -> Seq<u64> {
        self.order@
    }

    /// What a token remembers of this category: its order and its identifier.
    pub open spec fn key(&self) -> (Seq<u64>, u64) {
        (self.order_ids(), self.spec_id())
    }

    /// Returns the rank of this category in its order.
    pub fn rank(&self) -> (r: usize)
        ensures
            r as nat == self.spec_rank(),
    {
        self.rank
    }

    /// Returns whether this category may open a chain: it is the innermost of its order.
    pub fn opens_chain(&self) -> (r: bool)
        ensures
            r == declared_after(self.order_ids(), self.spec_id(), None),
    {
        proof {
            use_type_invariant(self);
        }
        let n = self.order.len();
        self.rank + 1 == n
    }

    /// Returns whether this category may be locked after `last`, or first in a chain when `last`
    /// is `None`.
    pub fn may_follow(&self, last: Option<&Category>) -> (r: bool)
        ensures
            r == admits(
                self.order_ids(),
                self.spec_id(),
                match last {
                    None => None,
                    Some(c) => Some(c.key()),
                },
            ),
    {
        proof {
            use_type_invariant(self);
        }
        match last {
            None => self.opens_chain(),
            Some(c) => {
                proof {
                    use_type_invariant(c);
                }
                if !same_ids(&c.order, &self.order) {
                    return false;
                }
                proof {
                    lemma_declared_after_is_rank_order(
                        self.order@,
                        self.rank as int,
                        c.rank as int,
                    );
                }
                self.rank < c.rank
            },
        }
    }

    /// A copy of this category.
    pub fn duplicate(&self) -> (r: Category)
        ensures
            r.key() == self.key(),
            r.spec_rank() == self.spec_rank(),
    {
        proof {
            use_type_invariant(self);
        }
        Category { id: self.id, rank: self.rank, order: copy_ids(&self.order) }
    }
}

/// Whether `a` and `b` hold the same identifiers in the same order.
fn same_ids(a: &Vec<u64>, b: &Vec<u64>) -> (r: bool)
    ensures
        r == (a@ == b@),
{
    if a.len() != b.len() {
        return false;
    }
    let mut i: usize = 0;
    while i < a.len()
        invariant
            a@.len() == b@.len(),
            i <= a@.len(),
            forall|k: int| 0 <= k < i ==> a@[k] == b@[k],
        decreases a@.len() - i,
    {
        if a[i] != b[i] {
            return false;
        }
        i = i + 1;
    }
    assert(a@ =~= b@);
    true
}

/// The ranks of `ranks` strictly decrease from first to last.
pub open spec fn strictly_inward(ranks: Seq<nat>) -> bool {
    forall|i: int, j: int| 0 <= i < j < ranks.len() ==> ranks[j] < ranks[i]
}

/// The rank check is the declared relation: in an order without duplicates, the category at
/// position `k` may follow the one at position `j` exactly when `k < j`, and may open a chain
/// exactly when it is the innermost.
pub proof fn lemma_declared_after_is_rank_order(s: Seq<u64>, k: int, j: int)
    requires
        s.no_duplicates(),
        0 <= k < s.len(),
        0 <= j < s.len(),
    ensures
        declared_after(s, s[k], Some(s[j])) <==> follows(k as nat, j as nat),
        declared_after(s, s[k], None) <==> opens(k as nat, s.len()),
{
    if declared_after(s, s[k], Some(s[j])) {
        let (k2, j2) = choose|k2: int, j2: int|
            0 <= k2 < j2 < s.len() && s[k2] == s[k] && s[j2] == s[j];
        assert(k2 == k);
        assert(j2 == j);
    }
    if k < j {
        assert(0 <= k < j < s.len() && s[k] == s[k] && s[j] == s[j]);
    }
    if declared_after(s, s[k], None) {
        assert(s[s.len() - 1] == s[k]);
    }
}

/// What a token holds before the `i`-th acquisition of the chain that locks the categories at
/// `positions` of the order `s`, one after another: nothing before the first.
pub open spec fn held_before(s: Seq<u64>, positions: Seq<int>, i: int) -> Option<(Seq<u64>, u64)> {
    if i == 0 {
        None
    } else {
        Some((s, s[positions[i - 1]]))
    }
}

/// A chain that opens with the innermost category of a declared order and walks it strictly
/// outward is admitted at every acquisition, skipped categories included.
pub proof fn lemma_order_soundness(s: Seq<u64>, positions: Seq<int>)
    requires
        s.no_duplicates(),
        forall|i: int| 0 <= i < positions.len() ==> 0 <= #[trigger] positions[i] < s.len(),
        forall|i: int, j: int|
            0 <= i < j < positions.len() ==> #[trigger] positions[j] < #[trigger] positions[i],
        positions.len() > 0 ==> positions[0] == s.len() - 1,
    ensures
        forall|i: int|
            0 <= i < positions.len() ==> admits(
                s,
                s[positions[i]],
                #[trigger] held_before(s, positions, i),
            ),
{
    assert forall|i: int| 0 <= i < positions.len() implies admits(
        s,
        s[positions[i]],
        #[trigger] held_before(s, positions, i),
    ) by {
        if i > 0 {
            let k = positions[i];
            let j = positions[i - 1];
            assert(k < j);
            assert(0 <= k < j < s.len() && s[k] == s[k] && s[j] == s[j]);
        }
    }
}

/// No acquisition goes back outward or mixes orders: in an order without duplicates, the reverse
/// of an admitted pair is refused, no category is admitted after itself, at most one category
/// may open a chain, and a token from a chain of any other order is refused.
pub proof fn lemma_order_rejection(s: Seq<u64>, other: Seq<u64>, a: u64, b: u64)
    requires
        s.no_duplicates(),
    ensures
        admits(s, a, Some((s, b))) ==> !admits(s, b, Some((s, a))),
        !admits(s, a, Some((s, a))),
        admits(s, a, None) && admits(s, b, None) ==> a == b,
        other != s ==> !admits(s, a, Some((other, b))),
{
    if declared_after(s, a, Some(b)) {
        let (k, j) = choose|k: int, j: int| 0 <= k < j < s.len() && s[k] == a && s[j] == b;
        lemma_declared_after_is_rank_order(s, k, j);
        lemma_declared_after_is_rank_order(s, j, k);
    }
    if declared_after(s, a, Some(a)) {
        let (k, j) = choose|k: int, j: int| 0 <= k < j < s.len() && s[k] == a && s[j] == a;
        assert(s[k] == s[j]);
    }
}

proof fn lemma_descends(m: Seq<nat>, k: int)
    requires
        forall|i: int| 0 <= i < m.len() - 1 ==> m[i + 1] < #[trigger] m[i],
        0 < k < m.len(),
    ensures
        m[k] < m[0],
    decreases k,
{
    assert(m[k] < m[k - 1]);
    if k > 1 {
        lemma_descends(m, k - 1);
    }
}

/// Threads that each follow the order never wait on one another in a cycle.
///
/// Thread `i` holds the locks of its chain `chains[i]`, whose ranks strictly decrease, and waits
/// for a lock of rank `wants[i]` that may follow the last of them. Then it cannot be that each
/// thread waits for a lock that the next one (cyclically) holds.
pub proof fn lemma_no_deadlock(chains: Seq<Seq<nat>>, wants: Seq<nat>)
    requires
        chains.len() == wants.len(),
        chains.len() > 0,
        forall|i: int|
            0 <= i < chains.len() ==> #[trigger] chains[i].len() > 0 && strictly_inward(chains[i]),
        forall|i: int|
            0 <= i < chains.len() ==> follows(
                #[trigger] wants[i],
                chains[i][chains[i].len() - 1],
            ),
    ensures
        !(forall|i: int|
            0 <= i < chains.len() ==> #[trigger] chains[(i + 1) % (chains.len() as int)].contains(
                wants[i],
            )),
{
    let n = chains.len() as int;
    let lowest = |i: int| chains[i][chains[i].len() - 1];
    if forall|i: int|
        0 <= i < n ==> #[trigger] chains[(i + 1) % n].contains(wants[i]) {
        // The lowest rank held strictly decreases from each thread to the next.
        assert forall|i: int| 0 <= i < n implies #[trigger] lowest((i + 1) % n) < lowest(i) by {
            let c = chains[(i + 1) % n];
            assert(c.contains(wants[i]));
            let p = choose|p: int| 0 <= p < c.len() && c[p] == wants[i];
            lemma_mod_pos_bound(i + 1, n);
            if p < c.len() - 1 {
                assert(c[c.len() - 1] < c[p]);
            }
        }
        let m = Seq::new(n as nat, lowest);
        assert forall|i: int| 0 <= i < n - 1 implies m[i + 1] < #[trigger] m[i] by {
            lemma_small_mod((i + 1) as nat, n as nat);
            assert(lowest((i + 1) % n) < lowest(i));
        }
        if n > 1 {
            lemma_descends(m, n - 1);
        }
        lemma_mod_self_0(n);
        assert(lowest((n - 1 + 1) % n) < lowest(n - 1));
        assert(lowest(0) < lowest(n - 1));
        assert(false);
    }
}

/// The position of a category in its own order: where `key.1` stands in `key.0`.
pub open spec fn position(key: (Seq<u64>, u64)) -> nat {
    (choose|p: int| 0 <= p < key.0.len() && key.0[p] == key.1) as nat
}

/// What a token holds before the `k`-th acquisition of the chain `keys`: nothing before the first.
pub open spec fn held_in(keys: Seq<(Seq<u64>, u64)>, k: int) -> Option<(Seq<u64>, u64)> {
    if k == 0 {
        None
    } else {
        Some(keys[k - 1])
    }
}

/// Each acquisition of the chain `keys`, begun with a start token, was admitted.
pub open spec fn chain_admitted(keys: Seq<(Seq<u64>, u64)>) -> bool {
    forall|k: int|
        0 <= k < keys.len() ==> admits(keys[k].0, keys[k].1, #[trigger] held_in(keys, k))
}

proof fn lemma_admitted_position(x: (Seq<u64>, u64), y: (Seq<u64>, u64))
    requires
        x.0.no_duplicates(),
        admits(x.0, x.1, Some(y)),
    ensures
        y.0 == x.0,
        position(x) < position(y),
{
    let s = x.0;
    let (k, j) = choose|k: int, j: int| 0 <= k < j < s.len() && s[k] == x.1 && s[j] == y.1;
    let pk = choose|p: int| 0 <= p < s.len() && s[p] == x.1;
    let pj = choose|p: int| 0 <= p < y.0.len() && y.0[p] == y.1;
    assert(pk == k);
    assert(pj == j);
}

proof fn lemma_chain_positions(keys: Seq<(Seq<u64>, u64)>, i: int, j: int)
    requires
        chain_admitted(keys),
        forall|k: int| 0 <= k < keys.len() ==> (#[trigger] keys[k]).0.no_duplicates(),
        0 <= i < j < keys.len(),
    ensures
        keys[j].0 == keys[i].0,
        position(keys[j]) < position(keys[i]),
    decreases j - i,
{
    assert(admits(keys[j].0, keys[j].1, held_in(keys, j)));
    lemma_admitted_position(keys[j], keys[j - 1]);
    if j - 1 > i {
        lemma_chain_positions(keys, i, j - 1);
    }
}

/// Threads that lock only as admitted never wait on one another in a cycle.
///
/// Thread `i` has locked, from its own start token, the categories `chains[i]` (each as its order
/// and identifier), every acquisition admitted, and waits for a category `wants[i]` that is
/// admitted after the last of them. Then it cannot be that each thread waits for a category that
/// the next one (cyclically) holds.
pub proof fn lemma_no_deadlock_admitted(
    chains: Seq<Seq<(Seq<u64>, u64)>>,
    wants: Seq<(Seq<u64>, u64)>,
)
    requires
        chains.len() == wants.len(),
        chains.len() > 0,
        forall|i: int|
            0 <= i < chains.len() ==> #[trigger] chains[i].len() > 0 && chain_admitted(chains[i]),
        forall|i: int, k: int|
            0 <= i < chains.len() && 0 <= k < chains[i].len() ==> (#[trigger] chains[i][k]).0.no_duplicates(),
        forall|i: int|
            0 <= i < chains.len() ==> admits(
                (#[trigger] wants[i]).0,
                wants[i].1,
                Some(chains[i][chains[i].len() - 1]),
            ),
        forall|i: int| 0 <= i < wants.len() ==> (#[trigger] wants[i]).0.no_duplicates(),
    ensures
        !(forall|i: int|
            0 <= i < chains.len() ==> #[trigger] chains[(i + 1) % (chains.len() as int)].contains(
                wants[i],
            )),
{
    let n = chains.len() as int;
    let ranks = Seq::new(chains.len(), |i: int| Seq::new(chains[i].len(), |k: int| position(chains[i][k])));
    let wanted = Seq::new(wants.len(), |i: int| position(wants[i]));
    assert forall|i: int| 0 <= i < n implies #[trigger] ranks[i].len() > 0 && strictly_inward(ranks[i]) by {
        assert(chains[i].len() > 0);
        assert forall|a: int, b: int| 0 <= a < b < ranks[i].len() implies ranks[i][b] < ranks[i][a] by {
            assert forall|k: int| 0 <= k < chains[i].len() implies (#[trigger] chains[i][k]).0.no_duplicates() by {
                assert(chains[i][k].0.no_duplicates());
            }
            lemma_chain_positions(chains[i], a, b);
        }
    }
    assert forall|i: int| 0 <= i < n implies follows(
        #[trigger] wanted[i],
        ranks[i][ranks[i].len() - 1],
    ) by {
        assert(admits(wants[i].0, wants[i].1, Some(chains[i][chains[i].len() - 1])));
        lemma_admitted_position(wants[i], chains[i][chains[i].len() - 1]);
    }
    lemma_no_deadlock(ranks, wanted);
    if forall|i: int| 0 <= i < n ==> #[trigger] chains[(i + 1) % n].contains(wants[i]) {
        assert forall|i: int| 0 <= i < n implies #[trigger] ranks[(i + 1) % n].contains(wanted[i]) by {
            lemma_mod_pos_bound(i + 1, n);
            let c = chains[(i + 1) % n];
            assert(c.contains(wants[i]));
            let p = choose|p: int| 0 <= p < c.len() && c[p] == wants[i];
            assert(ranks[(i + 1) % n][p] == wanted[i]);
        }
        assert(false);
    }
}

} // verus!
