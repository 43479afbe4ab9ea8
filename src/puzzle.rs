//! A small arithmetic puzzle: order five numbers and four operators so that
//! evaluating them from left to right (no precedence) gives 10.
use itertools::Itertools;
use vstd::prelude::*;

verus! {

/// The operators, in the order their permutations are formed.
pub open spec fn symbol(i: int) -> char {
    if i == 0 {
        '+'
    } else if i == 1 {
        '-'
    } else if i == 2 {
        '/'
    } else {
        '*'
    }
}

/// The value the evaluation must reach.
pub const TARGET: i32 = 10;

/// What `Itertools::permutations` yields for the items `v`, in its order.
pub uninterp spec fn permutations_of(v: Seq<i32>, k: nat) -> Seq<Seq<i32>>;

pub open spec fn views_i32(v: Seq<Vec<i32>>) -> Seq<Seq<i32>> {
    v.map_values(|x: Vec<i32>| x@)
}

/// Relies on itertools::Itertools::permutations: every `k`-permutation of
/// the items, in the crate's order, each of length `k`; none when `k`
/// exceeds the number of items.
#[verifier::external_body]
fn k_permutations(v: &Vec<i32>, k: usize) -> (r: Vec<Vec<i32>>)
    ensures
        views_i32(r@) == permutations_of(v@, k as nat),
        forall|i: int| 0 <= i < r@.len() ==> (#[trigger] r@[i])@.len() == k,
        k > v@.len() ==> r@.len() == 0,
{
    v.clone().into_iter().permutations(k).collect()
}

/// One step of the evaluation; `None` on division by zero or when the value
/// leaves the range of `i32`.
pub open spec fn step(acc: i32, op: char, next: i32) -> Option<i32> {
    let v: int = if op == '+' {
        acc + next
    } else if op == '-' {
        acc - next
    } else if op == '*' {
        acc * next
    } else {
        0
    };
    if op == '/' {
        if next == 0 {
            None
        } else {
            acc.checked_div(next)
        }
    } else if op != '+' && op != '-' && op != '*' {
        None
    } else if v < i32::MIN || v > i32::MAX {
        None
    } else {
        Some(v as i32)
    }
}

/// The value of `nums[0] ops[0] nums[1] ops[1] ...`, evaluated from the
/// left, over the first `k` operators.
pub open spec fn eval_prefix(nums: Seq<i32>, ops: Seq<char>, k: nat) -> Option<i32>
    decreases k,
{
    if k == 0 {
        Some(nums[0])
    } else {
        match eval_prefix(nums, ops, (k - 1) as nat) {
            Some(acc) => step(acc, ops[k - 1], nums[k as int]),
            None => None,
        }
    }
}

/// Whether the candidate is well formed and evaluates to the target.
pub open spec fn is_match(nums: Seq<i32>, ops: Seq<char>) -> bool {
    &&& nums.len() > 0
    &&& ops.len() > 0
    &&& nums.len() >= ops.len() + 1
    &&& eval_prefix(nums, ops, ops.len()) == Some(TARGET)
}

/// Every pair of a number order from `ns` and an operator order from `ss`,
/// number orders outermost.
pub open spec fn pairs(ns: Seq<Seq<i32>>, ss: Seq<Seq<char>>) -> Seq<(Seq<i32>, Seq<char>)>
    decreases ns.len(),
{
    if ns.len() == 0 {
        Seq::empty()
    } else {
        ss.map_values(|s: Seq<char>| (ns[0], s)) + pairs(ns.drop_first(), ss)
    }
}

/// The operator orders: the permutations of the four operator positions.
pub open spec fn operator_orders() -> Seq<Seq<char>> {
    permutations_of(seq![0i32, 1, 2, 3], 4).map_values(
        |p: Seq<i32>| p.map_values(|i: i32| symbol(i as int)),
    )
}

/// Candidate orders of numbers and operators.
pub struct Permutations {
    vec: Vec<(Vec<i32>, Vec<char>)>,
}

pub open spec fn pair_views(v: Seq<(Vec<i32>, Vec<char>)>) -> Seq<(Seq<i32>, Seq<char>)> {
    v.map_values(|c: (Vec<i32>, Vec<char>)| (c.0@, c.1@))
}

fn symbol_exec(i: i32) -> (c: char)
    ensures
        c == symbol(i as int),
{
    if i == 0 {
        '+'
    } else if i == 1 {
        '-'
    } else if i == 2 {
        '/'
    } else {
        '*'
    }
}

fn to_symbols(p: &Vec<i32>) -> (r: Vec<char>)
    ensures
        r@ == p@.map_values(|i: i32| symbol(i as int)),
{
    let mut r: Vec<char> = Vec::new();
    let mut i: usize = 0;
    while i < p.len()
        invariant
            i <= p@.len(),
            r@ == p@.take(i as int).map_values(|i: i32| symbol(i as int)),
        decreases p@.len() - i,
    {
        r.push(symbol_exec(p[i]));
        assert(r@ =~= p@.take(i + 1).map_values(|i: i32| symbol(i as int)));
        i = i + 1;
    }
    assert(p@.take(i as int) =~= p@);
    r
}

fn apply(acc: i32, op: char, next: i32) -> (r: Option<i32>)
    ensures
        r == step(acc, op, next),
{
    if op == '+' {
        acc.checked_add(next)
    } else if op == '-' {
        acc.checked_sub(next)
    } else if op == '*' {
        acc.checked_mul(next)
    } else if op == '/' {
        if next == 0 {
            None
        } else {
            acc.checked_div(next)
        }
    } else {
        None
    }
}

/// Whether the candidate is well formed and evaluates to the target.
fn check(nums: &Vec<i32>, ops: &Vec<char>) -> (r: bool)
    ensures
        r == is_match(nums@, ops@),
{
    if nums.len() == 0 || ops.len() == 0 || nums.len() <= ops.len() {
        return false;
    }
    let mut result = nums[0];
    let mut i: usize = 0;
    while i < ops.len()
        invariant
            0 < nums@.len(),
            nums@.len() >= ops@.len() + 1,
            i <= ops@.len(),
            eval_prefix(nums@, ops@, i as nat) == Some(result),
        decreases ops@.len() - i,
    {
        match apply(result, ops[i], nums[i + 1]) {
            Some(v) => {
                result = v;
            },
            None => {
                proof {
                    lemma_eval_fails_on(nums@, ops@, (i + 1) as nat, ops@.len());
                }
                return false;
            },
        }
        i = i + 1;
    }
    result == TARGET
}

/// Once the evaluation fails, it fails over any longer prefix.
proof fn lemma_eval_fails_on(nums: Seq<i32>, ops: Seq<char>, k: nat, n: nat)
    requires
        k <= n,
        eval_prefix(nums, ops, k) is None,
    ensures
        eval_prefix(nums, ops, n) is None,
    decreases n - k,
{
    if k < n {
        lemma_eval_fails_on(nums, ops, k + 1, n);
    }
}

impl Permutations {
    pub closed spec fn candidates(&self) -> Seq<(Seq<i32>, Seq<char>)> {
        pair_views(self.vec@)
    }

    pub fn new() -> (r: Permutations)
        ensures
            r.candidates() == Seq::<(Seq<i32>, Seq<char>)>::empty(),
    {
        let r = Permutations { vec: Vec::new() };
        assert(r.candidates() =~= Seq::<(Seq<i32>, Seq<char>)>::empty());
        r
    }

    /// Adds, for every ordering of five of `numbers`, every ordering of the
    /// four operators.
    pub fn create_permutations(&mut self, numbers: Vec<i32>)
        ensures
            final(self).candidates() == old(self).candidates() + pairs(
                permutations_of(numbers@, 5),
                operator_orders(),
            ),
    {
        let nums_perms = k_permutations(&numbers, 5);
        let mut idx: Vec<i32> = Vec::new();
        idx.push(0);
        idx.push(1);
        idx.push(2);
        idx.push(3);
        assert(idx@ =~= seq![0i32, 1, 2, 3]);
        let idx_perms = k_permutations(&idx, 4);
        let mut sym_perms: Vec<Vec<char>> = Vec::new();
        let mut j: usize = 0;
        while j < idx_perms.len()
            invariant
                views_i32(idx_perms@) == permutations_of(seq![0i32, 1, 2, 3], 4),
                j <= idx_perms@.len(),
                sym_perms@.map_values(|v: Vec<char>| v@) == operator_orders().take(j as int),
            decreases idx_perms@.len() - j,
        {
            let s = to_symbols(&idx_perms[j]);
            let ghost prev = sym_perms@;
            sym_perms.push(s);
            proof {
                assert(idx_perms@[j as int]@ == permutations_of(seq![0i32, 1, 2, 3], 4)[j as int]);
                assert(operator_orders()[j as int] == s@);
                assert(operator_orders().len() == idx_perms@.len());
                assert(prev.map_values(|v: Vec<char>| v@).len() == j);
                assert(prev.len() == j);
                assert forall|k: int| 0 <= k <= j implies (#[trigger] sym_perms@[k])@
                    == operator_orders().take(j + 1)[k] by {
                    if k < j {
                        assert(sym_perms@[k] == prev[k]);
                        assert(prev.map_values(|v: Vec<char>| v@)[k] == operator_orders().take(
                            j as int,
                        )[k]);
                    }
                }
                assert(sym_perms@.map_values(|v: Vec<char>| v@) =~= operator_orders().take(j + 1));
            }
            j = j + 1;
        }
        let ghost ss = operator_orders();
        assert(sym_perms@.map_values(|v: Vec<char>| v@) =~= ss);
        let ghost start = self.candidates();
        let ghost ns = permutations_of(numbers@, 5);
        let mut a: usize = 0;
        while a < nums_perms.len()
            invariant
                views_i32(nums_perms@) == ns,
                sym_perms@.map_values(|v: Vec<char>| v@) == ss,
                a <= nums_perms@.len(),
                self.candidates() == start + pairs(ns.take(a as int), ss),
            decreases nums_perms@.len() - a,
        {
            let mut b: usize = 0;
            let ghost base = self.candidates();
            while b < sym_perms.len()
                invariant
                    views_i32(nums_perms@) == ns,
                    sym_perms@.map_values(|v: Vec<char>| v@) == ss,
                    a < nums_perms@.len(),
                    b <= sym_perms@.len(),
                    self.candidates() == base + ss.take(b as int).map_values(
                        |s: Seq<char>| (ns[a as int], s),
                    ),
                decreases sym_perms@.len() - b,
            {
                let ghost prev = self.vec@;
                self.vec.push((nums_perms[a].clone(), sym_perms[b].clone()));
                proof {
                    assert(nums_perms@[a as int]@ == ns[a as int]);
                    assert(sym_perms@[b as int]@ == ss[b as int]);
                    assert(self.candidates() =~= pair_views(prev).push(
                        (ns[a as int], ss[b as int]),
                    ));
                    assert(self.candidates() =~= base + ss.take(b + 1).map_values(
                        |s: Seq<char>| (ns[a as int], s),
                    ));
                }
                b = b + 1;
            }
            proof {
                assert(ss.take(b as int) =~= ss);
                lemma_pairs_append(ns.take(a as int), ns[a as int], ss);
                assert(ns.take(a + 1) =~= ns.take(a as int).push(ns[a as int]));
            }
            a = a + 1;
        }
        assert(ns.take(a as int) =~= ns);
    }

    /// The first candidate that evaluates to the target, if any.
    pub fn find_match(self) -> (r: Option<(Vec<i32>, Vec<char>)>)
        ensures
            r matches Some(c) ==> exists|i: int|
                0 <= i < self.candidates().len() && self.candidates()[i] == (c.0@, c.1@) && is_match(
                    c.0@,
                    c.1@,
                ) && forall|j: int|
                    0 <= j < i ==> !is_match(
                        #[trigger] self.candidates()[j].0,
                        self.candidates()[j].1,
                    ),
            r is None ==> forall|j: int|
                0 <= j < self.candidates().len() ==> !is_match(
                    #[trigger] self.candidates()[j].0,
                    self.candidates()[j].1,
                ),
    {
        let ghost all = self.candidates();
        let mut vec = self.vec;
        let mut i: usize = 0;
        while i < vec.len()
            invariant
                pair_views(vec@) == all,
                all == self.candidates(),
                i <= vec@.len(),
                forall|j: int| 0 <= j < i ==> !is_match(#[trigger] all[j].0, all[j].1),
            decreases vec@.len() - i,
        {
            assert(all[i as int] == (vec@[i as int].0@, vec@[i as int].1@));
            if check(&vec[i].0, &vec[i].1) {
                let ghost k = i as int;
                let c = vec.swap_remove(i);
                assert(0 <= k < self.candidates().len() && self.candidates()[k] == (c.0@, c.1@)
                    && is_match(c.0@, c.1@) && forall|j: int|
                    0 <= j < k ==> !is_match(
                        #[trigger] self.candidates()[j].0,
                        self.candidates()[j].1,
                    ));
                return Some(c);
            }
            i = i + 1;
        }
        None
    }
}

proof fn lemma_pairs_append(ns: Seq<Seq<i32>>, n: Seq<i32>, ss: Seq<Seq<char>>)
    ensures
        pairs(ns.push(n), ss) == pairs(ns, ss) + ss.map_values(|s: Seq<char>| (n, s)),
    decreases ns.len(),
{
    if ns.len() == 0 {
        assert(ns.push(n).drop_first() =~= Seq::<Seq<i32>>::empty());
        assert(pairs(Seq::<Seq<i32>>::empty(), ss) =~= Seq::empty());
        assert(pairs(ns.push(n), ss) =~= ss.map_values(|s: Seq<char>| (n, s)));
    } else {
        assert(ns.push(n).drop_first() =~= ns.drop_first().push(n));
        lemma_pairs_append(ns.drop_first(), n, ss);
        assert(pairs(ns.push(n), ss) =~= pairs(ns, ss) + ss.map_values(|s: Seq<char>| (n, s)));
    }
}

} // verus!
