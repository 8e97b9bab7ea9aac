//! The theory of equality with uninterpreted function symbols.  This
//! allows expressing problems like:
//!
//!    g(a) = c && (f(g(a)) != f(c) || g(a) = d) && c != d
//!
//! Terms are interned into a table of nodes, one node per distinct term,
//! so that two terms are structurally equal exactly when they share a
//! node.  Equalities are kept as a symmetric graph over nodes, and two
//! terms are known to be equal when a path joins them.

use crate::cnf::Literal;
use crate::theory::{includes, Theory};
use vstd::prelude::*;

verus! {

broadcast use vstd::std_specs::vec::axiom_vec_index_decreases;

/// An EUF term is either an atom (represented as numbers) or a
/// function applied to EUF terms.
#[derive(Debug, PartialEq, Eq, PartialOrd, Ord)]
pub enum EUFTerm {
    Atom(usize),
    Application { function_atom: usize, parameters: Vec<EUFTerm> },
}

impl EUFTerm {
    /// Construct an EUF atom term.
    pub fn atom(atom: usize) -> (r: EUFTerm)
        ensures
            r == EUFTerm::Atom(atom),
    {
        EUFTerm::Atom(atom)
    }

    /// Construct an EUF application term.
    pub fn ap(function_atom: usize, parameters: Vec<EUFTerm>) -> (r: EUFTerm)
        ensures
            r == (EUFTerm::Application { function_atom, parameters }),
    {
        EUFTerm::Application { function_atom, parameters }
    }
}

/// Two terms have the same shape, atoms and function atoms.
pub open spec fn same_term(a: EUFTerm, b: EUFTerm) -> bool
    decreases a,
{
    match a {
        EUFTerm::Atom(x) => b == EUFTerm::Atom(x),
        EUFTerm::Application { function_atom, parameters } => match b {
            EUFTerm::Application { function_atom: f2, parameters: p2 } => {
                &&& function_atom == f2
                &&& parameters@.len() == p2@.len()
                &&& forall|i: int| 0 <= i < parameters@.len() ==> same_term(#[trigger] parameters@[i], p2@[i])
            },
            _ => false,
        },
    }
}

/// A copy of a term, built node by node.
fn copy_term(t: &EUFTerm) -> (r: EUFTerm)
    ensures
        same_term(*t, r),
    decreases t,
{
    match t {
        EUFTerm::Atom(a) => EUFTerm::Atom(*a),
        EUFTerm::Application { function_atom, parameters } => {
            let mut ps: Vec<EUFTerm> = Vec::new();
            let mut i: usize = 0;
            while i < parameters.len()
                invariant
                    t is Application,
                    t->Application_parameters == *parameters,
                    i <= parameters@.len(),
                    ps@.len() == i,
                    forall|j: int| 0 <= j < i ==> same_term(#[trigger] parameters@[j], ps@[j]),
                decreases parameters@.len() - i,
            {
                proof {
                    let ghost tp = t->Application_parameters;
                    assert(decreases_to!(*t => tp));
                    assert(decreases_to!(tp => tp[i as int]));
                }
                ps.push(copy_term(&parameters[i]));
                i = i + 1;
            }
            EUFTerm::Application { function_atom: *function_atom, parameters: ps }
        },
    }
}

impl Clone for EUFTerm {
    fn clone(&self) -> (r: EUFTerm) {
        copy_term(self)
    }
}

impl Clone for EUFLiteral {
    fn clone(&self) -> (r: EUFLiteral) {
        EUFLiteral { is_equality: self.is_equality, left: copy_term(&self.left), right: copy_term(&self.right) }
    }
}

/// An EUF literal is an (in)equality applied to two EUF terms.
#[derive(Debug, PartialEq, Eq, PartialOrd, Ord)]
pub struct EUFLiteral {
    pub is_equality: bool,
    pub left: EUFTerm,
    pub right: EUFTerm,
}

impl EUFLiteral {
    /// Construct an EUF equality literal.
    pub fn new(left: EUFTerm, right: EUFTerm) -> (r: EUFLiteral)
        ensures
            r.is_equality,
            r.left == left,
            r.right == right,
    {
        EUFLiteral { is_equality: true, left, right }
    }

    /// Turn an equality into a disequality and back.
    pub fn negate(self) -> (r: EUFLiteral)
        ensures
            r.is_equality == !self.is_equality,
            r.left == self.left,
            r.right == self.right,
    {
        EUFLiteral { is_equality: !self.is_equality, left: self.left, right: self.right }
    }
}

// ---------------------------------------------------------------------
// The node table
// ---------------------------------------------------------------------

/// One interned term: an atom, or an application of a function atom to
/// earlier nodes.
pub struct Node {
    pub is_app: bool,
    pub symbol: usize,
    pub args: Vec<usize>,
}

/// What identifies a node.
pub open spec fn key(n: Node) -> (bool, usize, Seq<usize>) {
    (n.is_app, n.symbol, n.args@)
}

/// Arguments point to earlier nodes, atoms have none, and no term is
/// interned twice.
pub open spec fn table_wf(nodes: Seq<Node>) -> bool {
    &&& forall|i: int, k: int|
        0 <= i < nodes.len() && 0 <= k < nodes[i].args@.len() ==> #[trigger] nodes[i].args@[k] < i
    &&& forall|i: int| 0 <= i < nodes.len() && !(#[trigger] nodes[i]).is_app ==> nodes[i].args@.len() == 0
    &&& forall|i: int, j: int|
        0 <= i < nodes.len() && 0 <= j < nodes.len() && i != j ==> key(#[trigger] nodes[i]) != key(
            #[trigger] nodes[j],
        )
}

/// Node `id` of the table is the term `t`.
pub open spec fn denotes(nodes: Seq<Node>, id: int, t: EUFTerm) -> bool
    decreases t,
{
    0 <= id < nodes.len() && match t {
        EUFTerm::Atom(a) => !nodes[id].is_app && nodes[id].symbol == a,
        EUFTerm::Application { function_atom, parameters } => {
            &&& nodes[id].is_app
            &&& nodes[id].symbol == function_atom
            &&& nodes[id].args@.len() == parameters@.len()
            &&& forall|k: int|
                0 <= k < parameters@.len() ==> denotes(nodes, nodes[id].args@[k] as int, #[trigger] parameters@[k])
        },
    }
}

proof fn lemma_denotes_extend(nodes: Seq<Node>, more: Seq<Node>, id: int, t: EUFTerm)
    requires
        denotes(nodes, id, t),
        nodes.len() <= more.len(),
        forall|i: int| 0 <= i < nodes.len() ==> #[trigger] more[i] == nodes[i],
    ensures
        denotes(more, id, t),
    decreases t,
{
    match t {
        EUFTerm::Atom(_) => {},
        EUFTerm::Application { function_atom, parameters } => {
            assert forall|k: int| 0 <= k < parameters@.len() implies denotes(more, more[id].args@[k] as int, #[trigger] parameters@[k]) by {
                lemma_denotes_extend(nodes, more, nodes[id].args@[k] as int, parameters@[k]);
            }
        },
    }
}

fn same_args(a: &Vec<usize>, b: &Vec<usize>) -> (r: bool)
    ensures
        r == (a@ == b@),
{
    if a.len() != b.len() {
        return false;
    }
    let mut i: usize = 0;
    while i < a.len()
        invariant
            a@.len() == b@.len(),
            i <= a@.len(),
            forall|k: int| 0 <= k < i ==> a@[k] == b@[k],
        decreases a@.len() - i,
    {
        if a[i] != b[i] {
            return false;
        }
        i = i + 1;
    }
    assert(a@ =~= b@);
    true
}

/// Find the node with this key.
fn lookup(nodes: &Vec<Node>, is_app: bool, symbol: usize, args: &Vec<usize>) -> (r: Option<usize>)
    ensures
        r matches Some(id) ==> id < nodes@.len() && key(nodes@[id as int]) == (is_app, symbol, args@),
        r is None ==> forall|i: int| 0 <= i < nodes@.len() ==> key(#[trigger] nodes@[i]) != (is_app, symbol, args@),
{
    let mut i: usize = 0;
    while i < nodes.len()
        invariant
            i <= nodes@.len(),
            forall|j: int| 0 <= j < i ==> key(#[trigger] nodes@[j]) != (is_app, symbol, args@),
        decreases nodes@.len() - i,
    {
        let n = &nodes[i];
        if n.is_app == is_app && n.symbol == symbol && same_args(&n.args, args) {
            return Some(i);
        }
        i = i + 1;
    }
    None
}

/// Find the node with this key, adding it if it is new.
fn find_or_add(nodes: &mut Vec<Node>, is_app: bool, symbol: usize, args: Vec<usize>) -> (r: usize)
    requires
        table_wf(old(nodes)@),
        forall|k: int| 0 <= k < args@.len() ==> #[trigger] args@[k] < old(nodes)@.len(),
        !is_app ==> args@.len() == 0,
    ensures
        table_wf(final(nodes)@),
        old(nodes)@.len() <= final(nodes)@.len(),
        forall|i: int| 0 <= i < old(nodes)@.len() ==> #[trigger] final(nodes)@[i] == old(nodes)@[i],
        r < final(nodes)@.len(),
        key(final(nodes)@[r as int]) == (is_app, symbol, args@),
{
    match lookup(nodes, is_app, symbol, &args) {
        Some(id) => id,
        None => {
            let ghost before = nodes@;
            let id = nodes.len();
            nodes.push(Node { is_app, symbol, args });
            assert forall|i: int, j: int|
                0 <= i < nodes@.len() && 0 <= j < nodes@.len() && i != j implies key(#[trigger] nodes@[i]) != key(#[trigger] nodes@[j]) by {
                if i < before.len() && j < before.len() {
                    assert(nodes@[i] == before[i] && nodes@[j] == before[j]);
                } else if i < before.len() {
                    assert(nodes@[i] == before[i]);
                } else {
                    assert(nodes@[j] == before[j]);
                }
            }
            assert forall|i: int, k: int|
                0 <= i < nodes@.len() && 0 <= k < nodes@[i].args@.len() implies #[trigger] nodes@[i].args@[k] < i by {
                if i < before.len() {
                    assert(nodes@[i] == before[i]);
                }
            }
            id
        },
    }
}

/// Intern a term, returning the node that is that term.
fn intern(nodes: &mut Vec<Node>, t: &EUFTerm) -> (r: usize)
    requires
        table_wf(old(nodes)@),
    ensures
        table_wf(final(nodes)@),
        old(nodes)@.len() <= final(nodes)@.len(),
        forall|i: int| 0 <= i < old(nodes)@.len() ==> #[trigger] final(nodes)@[i] == old(nodes)@[i],
        r < final(nodes)@.len(),
        denotes(final(nodes)@, r as int, *t),
    decreases t,
{
    match t {
        EUFTerm::Atom(a) => find_or_add(nodes, false, *a, Vec::new()),
        EUFTerm::Application { function_atom, parameters } => {
            let ghost start = nodes@;
            let mut args: Vec<usize> = Vec::new();
            let mut i: usize = 0;
            while i < parameters.len()
                invariant
                    table_wf(nodes@),
                    start.len() <= nodes@.len(),
                    forall|j: int| 0 <= j < start.len() ==> #[trigger] nodes@[j] == start[j],
                    start == old(nodes)@,
                    t is Application,
                    t->Application_parameters == *parameters,
                    i <= parameters@.len(),
                    args@.len() == i,
                    forall|k: int| 0 <= k < i ==> #[trigger] args@[k] < nodes@.len(),
                    forall|k: int| 0 <= k < i ==> denotes(nodes@, #[trigger] args@[k] as int, parameters@[k]),
                decreases parameters@.len() - i,
            {
                let ghost mid = nodes@;
                proof {
                    let ghost ps = t->Application_parameters;
                    assert(decreases_to!(*t => ps));
                    assert(decreases_to!(ps => ps[i as int]));
                }
                let id = intern(nodes, &parameters[i]);
                assert forall|k: int| 0 <= k < i implies denotes(nodes@, #[trigger] args@[k] as int, parameters@[k]) by {
                    lemma_denotes_extend(mid, nodes@, args@[k] as int, parameters@[k]);
                }
                args.push(id);
                i = i + 1;
            }
            let ghost mid = nodes@;
            let id = find_or_add(nodes, true, *function_atom, args);
            assert forall|k: int| 0 <= k < parameters@.len() implies denotes(nodes@, nodes@[id as int].args@[k] as int, #[trigger] parameters@[k]) by {
                lemma_denotes_extend(mid, nodes@, nodes@[id as int].args@[k] as int, parameters@[k]);
            }
            id
        },
    }
}

/// The superterm index is exact: node `p` is listed under node `i` when
/// `p` is an application with `i` among its arguments.
pub open spec fn sup_wf(nodes: Seq<Node>, sup: Seq<Vec<usize>>) -> bool {
    &&& sup.len() == nodes.len()
    &&& forall|i: usize, p: usize|
        #![trigger sup[i as int]@.contains(p)]
        #![trigger nodes[p as int].args@.contains(i)]
        i < nodes.len() ==> (sup[i as int]@.contains(p) <==> (p < nodes.len()
            && nodes[p as int].is_app && nodes[p as int].args@.contains(i)))
}

/// Add an element to a vector used as a set.
fn insert_into(v: &mut Vec<usize>, x: usize)
    ensures
        forall|y: usize| #[trigger] final(v)@.contains(y) == (old(v)@.contains(y) || y == x),
{
    if !vec_contains(v, x) {
        let ghost before = v@;
        v.push(x);
        assert forall|y: usize| #[trigger] v@.contains(y) == (before.contains(y) || y == x) by {
            if before.contains(y) {
                let k = choose|k: int| 0 <= k < before.len() && before[k] == y;
                assert(v@[k] == y);
            }
            if v@.contains(y) && y != x {
                let k = choose|k: int| 0 <= k < v@.len() && v@[k] == y;
                assert(before[k] == y);
            }
            if y == x {
                assert(v@[before.len() as int] == x);
            }
        }
    }
}

/// Given the node table, compute the superterm relation.
fn compute_superterms(nodes: &Vec<Node>) -> (r: Vec<Vec<usize>>)
    requires
        table_wf(nodes@),
    ensures
        sup_wf(nodes@, r@),
{
    let n = nodes.len();
    let mut sup: Vec<Vec<usize>> = Vec::new();
    let mut i: usize = 0;
    while i < n
        invariant
            n == nodes@.len(),
            i <= n,
            sup@.len() == i,
            forall|j: int| 0 <= j < i ==> (#[trigger] sup@[j])@.len() == 0,
        decreases n - i,
    {
        sup.push(Vec::new());
        i = i + 1;
    }
    let mut p: usize = 0;
    while p < n
        invariant
            n == nodes@.len(),
            table_wf(nodes@),
            p <= n,
            sup@.len() == n,
            forall|i: usize, q: usize|
                #![trigger sup@[i as int]@.contains(q)]
                #![trigger nodes@[q as int].args@.contains(i)]
                i < n ==> (sup@[i as int]@.contains(q) <==> (q < p && nodes@[q as int].is_app
                    && nodes@[q as int].args@.contains(i))),
        decreases n - p,
    {
        let ghost sup0 = sup@;
        if nodes[p].is_app {
            let args = &nodes[p].args;
            let mut k: usize = 0;
            while k < args.len()
                invariant
                    n == nodes@.len(),
                    table_wf(nodes@),
                    p < n,
                    nodes@[p as int].is_app,
                    args@ == nodes@[p as int].args@,
                    k <= args@.len(),
                    sup@.len() == n,
                    forall|i: usize, q: usize|
                        #![trigger sup@[i as int]@.contains(q)]
                        i < n ==> (sup@[i as int]@.contains(q) <==> (sup0[i as int]@.contains(q)
                            || (q == p && args@.subrange(0, k as int).contains(i)))),
                decreases args@.len() - k,
            {
                let a = args[k];
                assert(nodes@[p as int].args@[k as int] < p);
                let mut row = sup[a].clone();
                assert(row@ == sup@[a as int]@);
                insert_into(&mut row, p);
                let ghost old_sup = sup@;
                sup.set(a, row);
                assert forall|i: usize, q: usize| i < n implies (#[trigger] sup@[i as int]@.contains(q) <==> (
                    sup0[i as int]@.contains(q) || (q == p && args@.subrange(0, k + 1).contains(i)))) by {
                    assert(args@.subrange(0, k + 1) =~= args@.subrange(0, k as int).push(a));
                    let ghost s1 = args@.subrange(0, k + 1);
                    let ghost s0 = args@.subrange(0, k as int);
                    assert(s1.contains(i) == (s0.contains(i) || i == a)) by {
                        if s1.contains(i) && i != a {
                            let j = choose|j: int| 0 <= j < s1.len() && #[trigger] s1[j] == i;
                            assert(s0[j] == i);
                        }
                        if s0.contains(i) {
                            let j = choose|j: int| 0 <= j < s0.len() && #[trigger] s0[j] == i;
                            assert(s1[j] == i);
                        }
                        if i == a {
                            assert(s1[k as int] == i);
                        }
                    }
                    if i != a {
                        assert(sup@[i as int] == old_sup[i as int]);
                    }
                }
                k = k + 1;
            }
            assert(args@.subrange(0, args@.len() as int) =~= args@);
        }
        assert forall|i: usize, q: usize|
            #![trigger sup@[i as int]@.contains(q)]
            #![trigger nodes@[q as int].args@.contains(i)]
            i < n implies (sup@[i as int]@.contains(q) <==> (q < p + 1 && nodes@[q as int].is_app
                && nodes@[q as int].args@.contains(i))) by {
            if q == p && nodes@[q as int].is_app {
                assert(nodes@[p as int].args@.subrange(0, nodes@[p as int].args@.len() as int) =~= nodes@[p as int].args@);
            }
        }
        p = p + 1;
    }
    sup
}

fn vec_contains(v: &Vec<usize>, x: usize) -> (r: bool)
    ensures
        r == v@.contains(x),
{
    let mut i: usize = 0;
    while i < v.len()
        invariant
            i <= v@.len(),
            forall|k: int| 0 <= k < i ==> v@[k] != x,
        decreases v@.len() - i,
    {
        if v[i] == x {
            return true;
        }
        i = i + 1;
    }
    false
}

// ---------------------------------------------------------------------
// The equivalence graph
// ---------------------------------------------------------------------

/// An asserted or inferred equality joins node `a` to node `b`.
pub open spec fn edge(e: Seq<Vec<usize>>, a: int, b: int) -> bool {
    0 <= a < e.len() && 0 <= b <= usize::MAX && e[a]@.contains(b as usize)
}

/// A path of at most `k` edges leads from `a` to `b`.
pub open spec fn reach_in(e: Seq<Vec<usize>>, a: int, b: int, k: nat) -> bool
    decreases k,
{
    a == b || (k > 0 && exists|c: int| #[trigger] edge(e, a, c) && reach_in(e, c, b, (k - 1) as nat))
}

/// Two nodes are known to be equal: a path of equalities joins them.
pub open spec fn equal(e: Seq<Vec<usize>>, a: int, b: int) -> bool {
    exists|k: nat| #[trigger] reach_in(e, a, b, k)
}

/// Two nodes are known to be unequal: they are distinct, and they are
/// equal to the two sides of a recorded disequality.
pub open spec fn unequal(e: Seq<Vec<usize>>, d: Seq<(usize, usize)>, a: int, b: int) -> bool {
    a != b && exists|k: int|
        0 <= k < d.len() && ((equal(e, a, (#[trigger] d[k]).0 as int) && equal(e, b, d[k].1 as int)) || (
        equal(e, a, d[k].1 as int) && equal(e, b, d[k].0 as int)))
}

/// The graph has a row per node, its edges stay among the nodes, and
/// every edge goes both ways.
pub open spec fn rel_wf(e: Seq<Vec<usize>>, n: nat) -> bool {
    &&& e.len() == n
    &&& forall|a: int, k: int| 0 <= a < n && 0 <= k < e[a]@.len() ==> #[trigger] e[a]@[k] < n
    &&& forall|a: int, b: int| #[trigger] edge(e, a, b) ==> edge(e, b, a)
}

/// Every edge of one graph is an edge of the other.
pub open spec fn grows(e1: Seq<Vec<usize>>, e2: Seq<Vec<usize>>) -> bool {
    forall|a: int, b: int| #[trigger] edge(e1, a, b) ==> edge(e2, a, b)
}

proof fn lemma_reach_grows(e1: Seq<Vec<usize>>, e2: Seq<Vec<usize>>, a: int, b: int, k: nat)
    requires
        grows(e1, e2),
        reach_in(e1, a, b, k),
    ensures
        reach_in(e2, a, b, k),
    decreases k,
{
    if a != b {
        let c = choose|c: int| #[trigger] edge(e1, a, c) && reach_in(e1, c, b, (k - 1) as nat);
        lemma_reach_grows(e1, e2, c, b, (k - 1) as nat);
        assert(edge(e2, a, c));
    }
}

/// Known equalities survive the addition of edges.
pub proof fn lemma_equal_grows(e1: Seq<Vec<usize>>, e2: Seq<Vec<usize>>, a: int, b: int)
    requires
        grows(e1, e2),
        equal(e1, a, b),
    ensures
        equal(e2, a, b),
{
    let k = choose|k: nat| #[trigger] reach_in(e1, a, b, k);
    lemma_reach_grows(e1, e2, a, b, k);
}

proof fn lemma_reach_more(e: Seq<Vec<usize>>, a: int, b: int, k: nat, k2: nat)
    requires
        reach_in(e, a, b, k),
        k <= k2,
    ensures
        reach_in(e, a, b, k2),
    decreases k,
{
    if a != b {
        let c = choose|c: int| #[trigger] edge(e, a, c) && reach_in(e, c, b, (k - 1) as nat);
        lemma_reach_more(e, c, b, (k - 1) as nat, (k2 - 1) as nat);
    }
}

proof fn lemma_reach_trans(e: Seq<Vec<usize>>, a: int, b: int, c: int, k1: nat, k2: nat)
    requires
        reach_in(e, a, b, k1),
        reach_in(e, b, c, k2),
    ensures
        reach_in(e, a, c, k1 + k2),
    decreases k1,
{
    if a == b {
        lemma_reach_more(e, b, c, k2, k1 + k2);
    } else {
        let m = choose|m: int| #[trigger] edge(e, a, m) && reach_in(e, m, b, (k1 - 1) as nat);
        lemma_reach_trans(e, m, b, c, (k1 - 1) as nat, k2);
        if a != c {
            assert(edge(e, a, m) && reach_in(e, m, c, (k1 + k2 - 1) as nat));
        }
    }
}

proof fn lemma_reach_sym(e: Seq<Vec<usize>>, a: int, b: int, k: nat)
    requires
        forall|x: int, y: int| #[trigger] edge(e, x, y) ==> edge(e, y, x),
        reach_in(e, a, b, k),
    ensures
        reach_in(e, b, a, k),
    decreases k,
{
    if a != b {
        let c = choose|c: int| #[trigger] edge(e, a, c) && reach_in(e, c, b, (k - 1) as nat);
        lemma_reach_sym(e, c, b, (k - 1) as nat);
        assert(edge(e, c, a));
        assert(reach_in(e, a, a, 0));
        assert(reach_in(e, c, a, 1));
        lemma_reach_trans(e, b, c, a, (k - 1) as nat, 1);
    }
}

/// Known equality is reflexive, symmetric and transitive.
pub proof fn lemma_equal_equivalence(e: Seq<Vec<usize>>, n: nat, a: int, b: int, c: int)
    requires
        rel_wf(e, n),
    ensures
        equal(e, a, a),
        equal(e, a, b) ==> equal(e, b, a),
        equal(e, a, b) && equal(e, b, c) ==> equal(e, a, c),
{
    assert(reach_in(e, a, a, 0));
    if equal(e, a, b) {
        let k = choose|k: nat| #[trigger] reach_in(e, a, b, k);
        lemma_reach_sym(e, a, b, k);
        if equal(e, b, c) {
            let k2 = choose|k2: nat| #[trigger] reach_in(e, b, c, k2);
            lemma_reach_trans(e, a, b, c, k, k2);
        }
    }
}

/// A term is equal to itself and never unequal to itself.
pub proof fn lemma_self_equal(e: Seq<Vec<usize>>, d: Seq<(usize, usize)>, t: int)
    ensures
        equal(e, t, t),
        !unequal(e, d, t, t),
{
    assert(reach_in(e, t, t, 0));
}

/// A set of nodes closed under edges holds everything reachable from its
/// members.
proof fn lemma_closed_reach(e: Seq<Vec<usize>>, seen: Seq<bool>, a: int, b: int, k: nat)
    requires
        0 <= a < seen.len(),
        seen[a],
        forall|x: int, y: int| 0 <= x < seen.len() && seen[x] && #[trigger] edge(e, x, y) ==> 0 <= y < seen.len() && seen[y],
        reach_in(e, a, b, k),
    ensures
        0 <= b < seen.len() && seen[b],
    decreases k,
{
    if a != b {
        let c = choose|c: int| #[trigger] edge(e, a, c) && reach_in(e, c, b, (k - 1) as nat);
        lemma_closed_reach(e, seen, c, b, (k - 1) as nat);
    }
}

/// Check if two terms are known to be equal, by a search of the graph.
fn are_equal(rel: &Vec<Vec<usize>>, left: usize, right: usize) -> (r: bool)
    requires
        rel_wf(rel@, rel@.len()),
        left < rel@.len(),
        right < rel@.len(),
    ensures
        r == equal(rel@, left as int, right as int),
{
    if left == right {
        assert(reach_in(rel@, left as int, right as int, 0));
        return true;
    }
    let n = rel.len();
    let mut seen: Vec<bool> = Vec::new();
    let mut i: usize = 0;
    while i < n
        invariant
            i <= n,
            seen@.len() == i,
            forall|j: int| 0 <= j < i ==> !(#[trigger] seen@[j]),
        decreases n - i,
    {
        seen.push(false);
        i = i + 1;
    }
    let ghost unseen = seen@;
    seen.set(left, true);
    proof {
        lemma_count_true_set(unseen, left as int);
        lemma_count_true_bound(seen@);
    }
    let mut todo: Vec<usize> = Vec::new();
    todo.push(left);
    assert(reach_in(rel@, left as int, left as int, 0));
    assert(todo@[0] == left);
    assert forall|j: int| 0 <= j < n && #[trigger] seen@[j] implies j == left by {}
    while todo.len() > 0
        invariant
            n == rel@.len(),
            rel_wf(rel@, n as nat),
            left < n,
            right < n,
            left != right,
            seen@.len() == n,
            seen@[left as int],
            !seen@[right as int],
            forall|j: int| 0 <= j < n && #[trigger] seen@[j] ==> equal(rel@, left as int, j),
            forall|k: int| 0 <= k < todo@.len() ==> #[trigger] todo@[k] < n && seen@[todo@[k] as int],
            forall|x: int, y: int|
                0 <= x < n && seen@[x] && !todo@.contains(x as usize) && #[trigger] edge(rel@, x, y)
                    ==> 0 <= y < n && seen@[y],
            count_true(seen@) <= n,
        decreases n - count_true(seen@), todo@.len(),
    {
        let ghost todo_all = todo@;
        let next = todo.pop().unwrap();
        let ghost todo_rest = todo@;
        assert(todo_all =~= todo_rest.push(next));
        assert forall|x: int| 0 <= x < n && x != next && !todo_rest.contains(x as usize) implies !#[trigger] todo_all.contains(x as usize) by {
            if todo_all.contains(x as usize) {
                let j = choose|j: int| 0 <= j < todo_all.len() && todo_all[j] == x as usize;
                if j < todo_rest.len() {
                    assert(todo_rest[j] == x as usize);
                }
            }
        }
        let row = &rel[next];
        let mut k: usize = 0;
        let ghost seen_start = count_true(seen@);
        while k < row.len()
            invariant
                n == rel@.len(),
                rel_wf(rel@, n as nat),
                next < n,
                row@ == rel@[next as int]@,
                left < n,
                right < n,
                left != right,
                seen@.len() == n,
                seen@[left as int],
                seen@[next as int],
                !seen@[right as int],
                k <= row@.len(),
                count_true(seen@) >= seen_start,
                count_true(seen@) == seen_start ==> todo@.len() == todo_rest.len(),
                todo_rest.len() <= todo@.len(),
                forall|j: int| 0 <= j < todo_rest.len() ==> todo@[j] == #[trigger] todo_rest[j],
                forall|j: int| 0 <= j < n && #[trigger] seen@[j] ==> equal(rel@, left as int, j),
                forall|j: int| 0 <= j < todo@.len() ==> #[trigger] todo@[j] < n && seen@[todo@[j] as int],
                forall|j: int| 0 <= j < k ==> seen@[#[trigger] row@[j] as int],
                forall|x: int, y: int|
                    0 <= x < n && seen@[x] && x != next && !todo@.contains(x as usize) && #[trigger] edge(rel@, x, y)
                        ==> 0 <= y < n && seen@[y],
            decreases row@.len() - k,
        {
            let candidate = row[k];
            assert(rel@[next as int]@[k as int] < n);
            if !seen[candidate] {
                assert(edge(rel@, next as int, candidate as int));
                assert(equal(rel@, left as int, candidate as int)) by {
                    let q = choose|q: nat| #[trigger] reach_in(rel@, left as int, next as int, q);
                    assert(reach_in(rel@, next as int, candidate as int, 1)) by {
                        assert(reach_in(rel@, candidate as int, candidate as int, 0));
                    }
                    lemma_reach_trans(rel@, left as int, next as int, candidate as int, q, 1);
                }
                if candidate == right {
                    return true;
                }
                let ghost before = seen@;
                seen.set(candidate, true);
                proof {
                    lemma_count_true_set(before, candidate as int);
                }
                let ghost todo_before = todo@;
                todo.push(candidate);
                assert forall|x: int, y: int|
                    0 <= x < n && seen@[x] && x != next && !todo@.contains(x as usize) && #[trigger] edge(rel@, x, y)
                        implies 0 <= y < n && seen@[y] by {
                    assert(todo@[todo@.len() - 1] == candidate);
                    if todo_before.contains(x as usize) {
                        let j = choose|j: int| 0 <= j < todo_before.len() && todo_before[j] == x as usize;
                        assert(todo@[j] == x as usize);
                    }
                    assert(before[x]);
                }
            }
            k = k + 1;
        }
        assert forall|x: int, y: int|
            0 <= x < n && seen@[x] && !todo@.contains(x as usize) && #[trigger] edge(rel@, x, y)
                implies 0 <= y < n && seen@[y] by {
            if x == next {
                let j = choose|j: int| 0 <= j < row@.len() && row@[j] == y as usize;
            }
        }
        proof {
            lemma_count_true_bound(seen@);
        }
    }
    proof {
        if equal(rel@, left as int, right as int) {
            let q = choose|q: nat| #[trigger] reach_in(rel@, left as int, right as int, q);
            lemma_closed_reach(rel@, seen@, left as int, right as int, q);
        }
    }
    false
}

/// The number of marked nodes.
pub open spec fn count_true(s: Seq<bool>) -> nat
    decreases s.len(),
{
    if s.len() == 0 {
        0
    } else {
        count_true(s.drop_last()) + if s.last() {
            1nat
        } else {
            0nat
        }
    }
}

proof fn lemma_count_true_set(s: Seq<bool>, i: int)
    requires
        0 <= i < s.len(),
        !s[i],
    ensures
        count_true(s.update(i, true)) == count_true(s) + 1,
        count_true(s) < s.len(),
    decreases s.len(),
{
    lemma_count_true_bound(s);
    if i < s.len() - 1 {
        assert(s.update(i, true).drop_last() =~= s.drop_last().update(i, true));
        lemma_count_true_set(s.drop_last(), i);
    } else {
        assert(s.update(i, true).drop_last() =~= s.drop_last());
        lemma_count_true_bound(s.drop_last());
    }
}

proof fn lemma_count_true_bound(s: Seq<bool>)
    ensures
        count_true(s) <= s.len(),
    decreases s.len(),
{
    if s.len() > 0 {
        lemma_count_true_bound(s.drop_last());
    }
}

/// Check if two terms are known to be unequal.
fn are_unequal(rel: &Vec<Vec<usize>>, inequivs: &Vec<(usize, usize)>, left: usize, right: usize) -> (r: bool)
    requires
        rel_wf(rel@, rel@.len()),
        left < rel@.len(),
        right < rel@.len(),
        forall|k: int| 0 <= k < inequivs@.len() ==> (#[trigger] inequivs@[k]).0 < rel@.len() && inequivs@[k].1 < rel@.len(),
    ensures
        r == unequal(rel@, inequivs@, left as int, right as int),
{
    if left == right {
        return false;
    }
    let mut k: usize = 0;
    while k < inequivs.len()
        invariant
            rel_wf(rel@, rel@.len()),
            left < rel@.len(),
            right < rel@.len(),
            left != right,
            forall|j: int| 0 <= j < inequivs@.len() ==> (#[trigger] inequivs@[j]).0 < rel@.len() && inequivs@[j].1 < rel@.len(),
            k <= inequivs@.len(),
            forall|j: int| 0 <= j < k ==> !((equal(rel@, left as int, (#[trigger] inequivs@[j]).0 as int) && equal(rel@, right as int, inequivs@[j].1 as int)) || (
                equal(rel@, left as int, inequivs@[j].1 as int) && equal(rel@, right as int, inequivs@[j].0 as int))),
        decreases inequivs@.len() - k,
    {
        let (a, b) = inequivs[k];
        if (are_equal(rel, left, a) && are_equal(rel, right, b)) || (are_equal(rel, left, b) && are_equal(rel, right, a)) {
            return true;
        }
        k = k + 1;
    }
    false
}

// ---------------------------------------------------------------------
// Congruence
// ---------------------------------------------------------------------

/// Nodes `a` and `b` apply one function to arguments known pairwise equal.
pub open spec fn congruent(nodes: Seq<Node>, e: Seq<Vec<usize>>, a: int, b: int) -> bool {
    &&& 0 <= a < nodes.len()
    &&& 0 <= b < nodes.len()
    &&& nodes[a].is_app
    &&& nodes[b].is_app
    &&& nodes[a].symbol == nodes[b].symbol
    &&& nodes[a].args@.len() == nodes[b].args@.len()
    &&& forall|k: int|
        0 <= k < nodes[a].args@.len() ==> equal(e, #[trigger] nodes[a].args@[k] as int, nodes[b].args@[k] as int)
}

/// Nodes `a` and `b` are equal by at most `k` rounds of derivation from
/// the asserted pairs: each round may use an asserted pair (either way
/// round), join two equalities of the round before, or join applications
/// of one function whose arguments were equal the round before.
pub open spec fn derives(nodes: Seq<Node>, asserted: Set<(int, int)>, k: nat, a: int, b: int) -> bool
    decreases k, 1nat,
{
    a == b || (k > 0 && (derives(nodes, asserted, (k - 1) as nat, a, b) || asserted.contains((a, b))
        || asserted.contains((b, a)) || chains(nodes, asserted, (k - 1) as nat, a, b, nodes.len()) || congruent_by(
        nodes,
        asserted,
        (k - 1) as nat,
        a,
        b,
    )))
}

/// Some node below `m` is equal to `a` and to `b` within `k` rounds.
pub open spec fn chains(nodes: Seq<Node>, asserted: Set<(int, int)>, k: nat, a: int, b: int, m: nat) -> bool
    decreases k, 2nat, m,
{
    m > 0 && ((derives(nodes, asserted, k, a, (m - 1) as int) && derives(nodes, asserted, k, (m - 1) as int, b))
        || chains(nodes, asserted, k, a, b, (m - 1) as nat))
}

proof fn lemma_chains_intro(nodes: Seq<Node>, asserted: Set<(int, int)>, k: nat, a: int, b: int, c: int, m: nat)
    requires
        0 <= c < m,
        derives(nodes, asserted, k, a, c),
        derives(nodes, asserted, k, c, b),
    ensures
        chains(nodes, asserted, k, a, b, m),
    decreases m,
{
    if c < m - 1 {
        lemma_chains_intro(nodes, asserted, k, a, b, c, (m - 1) as nat);
    }
}

proof fn lemma_chains_elim(nodes: Seq<Node>, asserted: Set<(int, int)>, k: nat, a: int, b: int, m: nat) -> (c: int)
    requires
        chains(nodes, asserted, k, a, b, m),
    ensures
        0 <= c < m,
        derives(nodes, asserted, k, a, c),
        derives(nodes, asserted, k, c, b),
    decreases m,
{
    if derives(nodes, asserted, k, a, (m - 1) as int) && derives(nodes, asserted, k, (m - 1) as int, b) {
        (m - 1) as int
    } else {
        lemma_chains_elim(nodes, asserted, k, a, b, (m - 1) as nat)
    }
}

/// Nodes `a` and `b` apply one function to arguments equal within `k`
/// rounds.
pub open spec fn congruent_by(nodes: Seq<Node>, asserted: Set<(int, int)>, k: nat, a: int, b: int) -> bool
    decreases k, 2nat,
{
    &&& 0 <= a < nodes.len()
    &&& 0 <= b < nodes.len()
    &&& nodes[a].is_app
    &&& nodes[b].is_app
    &&& nodes[a].symbol == nodes[b].symbol
    &&& nodes[a].args@.len() == nodes[b].args@.len()
    &&& forall|i: int|
        0 <= i < nodes[a].args@.len() ==> derives(
            nodes,
            asserted,
            k,
            #[trigger] nodes[a].args@[i] as int,
            nodes[b].args@[i] as int,
        )
}

/// Nodes `a` and `b` are equal in the least congruence over the nodes
/// that holds the asserted pairs.
pub open spec fn derivable(nodes: Seq<Node>, asserted: Set<(int, int)>, a: int, b: int) -> bool {
    exists|k: nat| #[trigger] derives(nodes, asserted, k, a, b)
}

/// Every edge of the graph joins nodes that the asserted pairs make equal
/// by congruence.
pub open spec fn justified(nodes: Seq<Node>, e: Seq<Vec<usize>>, asserted: Set<(int, int)>) -> bool {
    forall|a: int, b: int| #[trigger] edge(e, a, b) ==> justifies(nodes, asserted, a, b)
}

/// Nodes `a` and `b` may be joined: they are derivably equal.
pub open spec fn justifies(nodes: Seq<Node>, asserted: Set<(int, int)>, a: int, b: int) -> bool {
    derivable(nodes, asserted, a, b)
}

proof fn lemma_derives_more(nodes: Seq<Node>, asserted: Set<(int, int)>, k: nat, k2: nat, a: int, b: int)
    requires
        derives(nodes, asserted, k, a, b),
        k <= k2,
    ensures
        derives(nodes, asserted, k2, a, b),
    decreases k2,
{
    if k2 > k {
        lemma_derives_more(nodes, asserted, k, (k2 - 1) as nat, a, b);
    }
}

proof fn lemma_derives_sym(nodes: Seq<Node>, asserted: Set<(int, int)>, k: nat, a: int, b: int)
    requires
        derives(nodes, asserted, k, a, b),
    ensures
        derives(nodes, asserted, k, b, a),
    decreases k,
{
    if a != b {
        let k1 = (k - 1) as nat;
        if derives(nodes, asserted, k1, a, b) {
            lemma_derives_sym(nodes, asserted, k1, a, b);
        } else if asserted.contains((a, b)) || asserted.contains((b, a)) {
        } else if chains(nodes, asserted, k1, a, b, nodes.len()) {
            let c = lemma_chains_elim(nodes, asserted, k1, a, b, nodes.len());
            lemma_derives_sym(nodes, asserted, k1, a, c);
            lemma_derives_sym(nodes, asserted, k1, c, b);
            lemma_chains_intro(nodes, asserted, k1, b, a, c, nodes.len());
        } else {
            assert(congruent_by(nodes, asserted, k1, a, b));
            assert forall|i: int| 0 <= i < nodes[b].args@.len() implies derives(
                nodes,
                asserted,
                k1,
                #[trigger] nodes[b].args@[i] as int,
                nodes[a].args@[i] as int,
            ) by {
                lemma_derives_sym(nodes, asserted, k1, nodes[a].args@[i] as int, nodes[b].args@[i] as int);
            }
            assert(congruent_by(nodes, asserted, k1, b, a));
        }
    }
}

proof fn lemma_derives_asserted_more(nodes: Seq<Node>, a1: Set<(int, int)>, a2: Set<(int, int)>, k: nat, a: int, b: int)
    requires
        derives(nodes, a1, k, a, b),
        a1.subset_of(a2),
    ensures
        derives(nodes, a2, k, a, b),
    decreases k,
{
    if a != b {
        let k1 = (k - 1) as nat;
        if derives(nodes, a1, k1, a, b) {
            lemma_derives_asserted_more(nodes, a1, a2, k1, a, b);
        } else if a1.contains((a, b)) || a1.contains((b, a)) {
        } else if chains(nodes, a1, k1, a, b, nodes.len()) {
            let c = lemma_chains_elim(nodes, a1, k1, a, b, nodes.len());
            lemma_derives_asserted_more(nodes, a1, a2, k1, a, c);
            lemma_derives_asserted_more(nodes, a1, a2, k1, c, b);
            lemma_chains_intro(nodes, a2, k1, a, b, c, nodes.len());
        } else {
            assert(congruent_by(nodes, a1, k1, a, b));
            assert forall|i: int| 0 <= i < nodes[a].args@.len() implies derives(
                nodes,
                a2,
                k1,
                #[trigger] nodes[a].args@[i] as int,
                nodes[b].args@[i] as int,
            ) by {
                lemma_derives_asserted_more(nodes, a1, a2, k1, nodes[a].args@[i] as int, nodes[b].args@[i] as int);
            }
            assert(congruent_by(nodes, a2, k1, a, b));
        }
    }
}

/// Derivable equality chains.
proof fn lemma_derivable_trans(nodes: Seq<Node>, asserted: Set<(int, int)>, a: int, b: int, c: int)
    requires
        0 <= b < nodes.len(),
        derivable(nodes, asserted, a, b),
        derivable(nodes, asserted, b, c),
    ensures
        derivable(nodes, asserted, a, c),
{
    let k1 = choose|k: nat| #[trigger] derives(nodes, asserted, k, a, b);
    let k2 = choose|k: nat| #[trigger] derives(nodes, asserted, k, b, c);
    let k = if k1 > k2 { k1 } else { k2 };
    lemma_derives_more(nodes, asserted, k1, k, a, b);
    lemma_derives_more(nodes, asserted, k2, k, b, c);
    lemma_chains_intro(nodes, asserted, k, a, c, b, nodes.len());
    assert(derives(nodes, asserted, k + 1, a, c));
}

/// A path in a justified graph joins derivably equal nodes.
proof fn lemma_reach_derivable(nodes: Seq<Node>, e: Seq<Vec<usize>>, asserted: Set<(int, int)>, a: int, b: int, k: nat)
    requires
        rel_wf(e, nodes.len()),
        justified(nodes, e, asserted),
        reach_in(e, a, b, k),
    ensures
        derivable(nodes, asserted, a, b),
    decreases k,
{
    if a == b {
        assert(derives(nodes, asserted, 0, a, b));
    } else {
        let c = choose|c: int| #[trigger] edge(e, a, c) && reach_in(e, c, b, (k - 1) as nat);
        lemma_reach_derivable(nodes, e, asserted, c, b, (k - 1) as nat);
        assert(justifies(nodes, asserted, a, c));
        assert(edge(e, c, a));
        lemma_derivable_trans(nodes, asserted, a, c, b);
    }
}

/// Pairwise derivable arguments are derivable within one bound.
proof fn lemma_args_bound(nodes: Seq<Node>, asserted: Set<(int, int)>, xs: Seq<usize>, ys: Seq<usize>) -> (k: nat)
    requires
        xs.len() == ys.len(),
        forall|i: int| 0 <= i < xs.len() ==> derivable(nodes, asserted, #[trigger] xs[i] as int, ys[i] as int),
    ensures
        forall|i: int| 0 <= i < xs.len() ==> derives(nodes, asserted, k, #[trigger] xs[i] as int, ys[i] as int),
    decreases xs.len(),
{
    if xs.len() == 0 {
        0
    } else {
        let n = xs.len() - 1;
        assert forall|i: int| 0 <= i < n implies derivable(nodes, asserted, #[trigger] xs.drop_last()[i] as int, ys.drop_last()[i] as int) by {
            assert(xs.drop_last()[i] == xs[i] && ys.drop_last()[i] == ys[i]);
        }
        let k0 = lemma_args_bound(nodes, asserted, xs.drop_last(), ys.drop_last());
        assert(derivable(nodes, asserted, xs[n] as int, ys[n] as int));
        let kl = choose|k: nat| #[trigger] derives(nodes, asserted, k, xs[n] as int, ys[n] as int);
        let k = if k0 > kl { k0 } else { kl };
        assert forall|i: int| 0 <= i < xs.len() implies derives(nodes, asserted, k, #[trigger] xs[i] as int, ys[i] as int) by {
            if i < n {
                assert(xs.drop_last()[i] == xs[i] && ys.drop_last()[i] == ys[i]);
                lemma_derives_more(nodes, asserted, k0, k, xs[i] as int, ys[i] as int);
            } else {
                lemma_derives_more(nodes, asserted, kl, k, xs[i] as int, ys[i] as int);
            }
        }
        k
    }
}

/// Congruent nodes of a justified graph are derivably equal.
proof fn lemma_congruent_derivable(nodes: Seq<Node>, e: Seq<Vec<usize>>, asserted: Set<(int, int)>, a: int, b: int)
    requires
        rel_wf(e, nodes.len()),
        justified(nodes, e, asserted),
        congruent(nodes, e, a, b),
    ensures
        derivable(nodes, asserted, a, b),
{
    let xs = nodes[a].args@;
    let ys = nodes[b].args@;
    assert forall|i: int| 0 <= i < xs.len() implies derivable(nodes, asserted, #[trigger] xs[i] as int, ys[i] as int) by {
        assert(equal(e, xs[i] as int, ys[i] as int));
        let q = choose|q: nat| #[trigger] reach_in(e, xs[i] as int, ys[i] as int, q);
        lemma_reach_derivable(nodes, e, asserted, xs[i] as int, ys[i] as int, q);
    }
    let k = lemma_args_bound(nodes, asserted, xs, ys);
    assert forall|i: int| 0 <= i < nodes[a].args@.len() implies derives(
        nodes,
        asserted,
        k,
        #[trigger] nodes[a].args@[i] as int,
        nodes[b].args@[i] as int,
    ) by {
        assert(xs[i] == nodes[a].args@[i]);
    }
    assert(congruent_by(nodes, asserted, k, a, b));
    assert(derives(nodes, asserted, k + 1, a, b));
}

/// In a congruence-closed graph that holds the asserted pairs, derivably
/// equal nodes are known equal.
proof fn lemma_derives_equal(nodes: Seq<Node>, e: Seq<Vec<usize>>, asserted: Set<(int, int)>, k: nat, a: int, b: int)
    requires
        rel_wf(e, nodes.len()),
        congruence_closed(nodes, e),
        forall|p: (int, int)| #[trigger] asserted.contains(p) ==> equal(e, p.0, p.1),
        derives(nodes, asserted, k, a, b),
    ensures
        equal(e, a, b),
    decreases k,
{
    lemma_equal_equivalence(e, nodes.len(), a, b, a);
    if a != b {
        let k1 = (k - 1) as nat;
        if derives(nodes, asserted, k1, a, b) {
            lemma_derives_equal(nodes, e, asserted, k1, a, b);
        } else if asserted.contains((a, b)) {
        } else if asserted.contains((b, a)) {
            lemma_equal_equivalence(e, nodes.len(), b, a, a);
        } else if chains(nodes, asserted, k1, a, b, nodes.len()) {
            let c = lemma_chains_elim(nodes, asserted, k1, a, b, nodes.len());
            lemma_derives_equal(nodes, e, asserted, k1, a, c);
            lemma_derives_equal(nodes, e, asserted, k1, c, b);
            lemma_equal_equivalence(e, nodes.len(), a, c, b);
        } else {
            assert(congruent_by(nodes, asserted, k1, a, b));
            assert forall|i: int| 0 <= i < nodes[a].args@.len() implies equal(
                e,
                #[trigger] nodes[a].args@[i] as int,
                nodes[b].args@[i] as int,
            ) by {
                lemma_derives_equal(nodes, e, asserted, k1, nodes[a].args@[i] as int, nodes[b].args@[i] as int);
            }
            assert(congruent(nodes, e, a, b));
        }
    }
}

/// Node `t` is node `s` with one or more of its arguments `from` replaced
/// by `to`.
pub open spec fn rewrite_of(nodes: Seq<Node>, s: int, t: int, from: int, to: int) -> bool {
    &&& 0 <= s < nodes.len()
    &&& 0 <= t < nodes.len()
    &&& nodes[s].is_app
    &&& nodes[t].is_app
    &&& nodes[s].symbol == nodes[t].symbol
    &&& nodes[s].args@.len() == nodes[t].args@.len()
    &&& forall|k: int|
        0 <= k < nodes[s].args@.len() ==> #[trigger] nodes[t].args@[k] == nodes[s].args@[k] || (nodes[s].args@[k] == from
            && nodes[t].args@[k] == to)
    &&& exists|k: int| 0 <= k < nodes[s].args@.len() && #[trigger] nodes[s].args@[k] == from && nodes[t].args@[k] == to
}

/// The graph holds every congruence among the nodes.
pub open spec fn congruence_closed(nodes: Seq<Node>, e: Seq<Vec<usize>>) -> bool {
    forall|a: int, b: int| #[trigger] congruent(nodes, e, a, b) ==> equal(e, a, b)
}

proof fn lemma_edge_equal(e: Seq<Vec<usize>>, a: int, b: int)
    requires
        edge(e, a, b),
    ensures
        equal(e, a, b),
{
    assert(reach_in(e, b, b, 0));
    assert(reach_in(e, a, b, 1));
}

/// Record the equality of two nodes, in both directions.
fn insert_pair(rel: &mut Vec<Vec<usize>>, nodes: &Vec<Node>, a: usize, b: usize, Ghost(asserted): Ghost<Set<(int, int)>>)
    requires
        rel_wf(old(rel)@, nodes@.len()),
        justified(nodes@, old(rel)@, asserted),
        a < nodes@.len(),
        b < nodes@.len(),
        justifies(nodes@, asserted, a as int, b as int),
    ensures
        rel_wf(final(rel)@, nodes@.len()),
        justified(nodes@, final(rel)@, asserted),
        grows(old(rel)@, final(rel)@),
        edge(final(rel)@, a as int, b as int),
        edge(final(rel)@, b as int, a as int),
        forall|x: int, y: int| #[trigger] edge(final(rel)@, x, y) ==> edge(old(rel)@, x, y) || (x == a && y == b) || (x == b && y == a),
{
    let ghost e0 = rel@;
    let mut row = rel[a].clone();
    assert(row@ == rel@[a as int]@);
    insert_into(&mut row, b);
    rel.set(a, row);
    let ghost e1 = rel@;
    assert forall|x: int, y: int| #[trigger] edge(e1, x, y) == (edge(e0, x, y) || (x == a && y == b)) by {
        if 0 <= x < e0.len() && 0 <= y {
            if x != a {
                assert(e1[x] == e0[x]);
            } else {
                assert(e1[x]@.contains(y as usize) == (e0[x]@.contains(y as usize) || y as usize == b));
            }
        }
    }
    let mut row2 = rel[b].clone();
    assert(row2@ == rel@[b as int]@);
    insert_into(&mut row2, a);
    rel.set(b, row2);
    assert forall|x: int, y: int| #[trigger] edge(rel@, x, y) == (edge(e1, x, y) || (x == b && y == a)) by {
        if 0 <= x < e0.len() && 0 <= y {
            if x != b {
                assert(rel@[x] == e1[x]);
            } else {
                assert(rel@[x]@.contains(y as usize) == (e1[x]@.contains(y as usize) || y as usize == a));
            }
        }
    }
    assert forall|x: int, y: int| #[trigger] edge(rel@, x, y) == (edge(e0, x, y) || (x == a && y == b) || (x == b && y == a)) by {
        assert(edge(rel@, x, y) == (edge(e1, x, y) || (x == b && y == a)));
        assert(edge(e1, x, y) == (edge(e0, x, y) || (x == a && y == b)));
    }
    assert forall|x: int, k: int| 0 <= x < nodes@.len() && 0 <= k < rel@[x]@.len() implies #[trigger] rel@[x]@[k] < nodes@.len() by {
        if x != a && x != b {
            assert(rel@[x] == e0[x]);
        } else {
            assert(edge(rel@, x, rel@[x]@[k] as int));
            if !edge(e0, x, rel@[x]@[k] as int) {
            } else {
                let j = choose|j: int| 0 <= j < e0[x]@.len() && e0[x]@[j] == rel@[x]@[k];
            }
        }
    }
    assert(grows(e0, rel@));
    assert forall|x: int, y: int| #[trigger] edge(rel@, x, y) implies justifies(nodes@, asserted, x, y) by {
        if edge(e0, x, y) {
        } else {
            if x == b as int && y == a as int {
                let k = choose|k: nat| #[trigger] derives(nodes@, asserted, k, a as int, b as int);
                lemma_derives_sym(nodes@, asserted, k, a as int, b as int);
            }
        }
    }
}

/// Add an equivalence to the graph, and with it every equivalence between
/// an application over `left` and the same application with some of those
/// arguments replaced by `right` (and the other way round), as far as the
/// rewritten application is a node of the problem.
fn add_equiv(
    rel: &mut Vec<Vec<usize>>,
    nodes: &Vec<Node>,
    superterms: &Vec<Vec<usize>>,
    left: usize,
    right: usize,
    Ghost(asserted): Ghost<Set<(int, int)>>,
)
    requires
        table_wf(nodes@),
        sup_wf(nodes@, superterms@),
        rel_wf(old(rel)@, nodes@.len()),
        justified(nodes@, old(rel)@, asserted),
        left < nodes@.len(),
        right < nodes@.len(),
        justifies(nodes@, asserted, left as int, right as int),
    ensures
        rel_wf(final(rel)@, nodes@.len()),
        justified(nodes@, final(rel)@, asserted),
        grows(old(rel)@, final(rel)@),
        edge(final(rel)@, left as int, right as int),
        edge(final(rel)@, right as int, left as int),
        forall|s: int, t: int| #[trigger] rewrite_of(nodes@, s, t, left as int, right as int) ==> edge(final(rel)@, s, t),
        forall|s: int, t: int| #[trigger] rewrite_of(nodes@, s, t, right as int, left as int) ==> edge(final(rel)@, s, t),
    decreases 2 * nodes@.len() - left - right, 2int, 0int,
{
    insert_pair(rel, nodes, left, right, Ghost(asserted));
    let ghost e1 = rel@;
    add_rewrites_of(rel, nodes, superterms, left, right, Ghost(asserted));
    let ghost e2 = rel@;
    add_rewrites_of(rel, nodes, superterms, right, left, Ghost(asserted));
    assert forall|s: int, t: int| #[trigger] rewrite_of(nodes@, s, t, left as int, right as int) implies edge(rel@, s, t) by {
        assert(edge(e2, s, t));
    }
}

/// For every application over `term`, add the equivalences to its
/// rewrites with `equiv` in place of `term`.
fn add_rewrites_of(
    rel: &mut Vec<Vec<usize>>,
    nodes: &Vec<Node>,
    superterms: &Vec<Vec<usize>>,
    term: usize,
    equiv: usize,
    Ghost(asserted): Ghost<Set<(int, int)>>,
)
    requires
        table_wf(nodes@),
        sup_wf(nodes@, superterms@),
        rel_wf(old(rel)@, nodes@.len()),
        justified(nodes@, old(rel)@, asserted),
        term < nodes@.len(),
        equiv < nodes@.len(),
        edge(old(rel)@, term as int, equiv as int),
    ensures
        rel_wf(final(rel)@, nodes@.len()),
        justified(nodes@, final(rel)@, asserted),
        grows(old(rel)@, final(rel)@),
        forall|s: int, t: int| #[trigger] rewrite_of(nodes@, s, t, term as int, equiv as int) ==> edge(final(rel)@, s, t),
    decreases 2 * nodes@.len() - term - equiv, 1int, 0int,
{
    let parents = &superterms[term];
    let n = nodes.len();
    let ghost e0 = rel@;
    let mut j: usize = 0;
    while j < parents.len()
        invariant
            table_wf(nodes@),
            sup_wf(nodes@, superterms@),
            rel_wf(rel@, nodes@.len()),
            justified(nodes@, rel@, asserted),
            term < nodes@.len(),
            equiv < nodes@.len(),
            parents@ == superterms@[term as int]@,
            grows(e0, rel@),
            edge(rel@, term as int, equiv as int),
            j <= parents@.len(),
            forall|q: int, t: int|
                0 <= q < j && #[trigger] rewrite_of(nodes@, parents@[q] as int, t, term as int, equiv as int) ==> edge(rel@, parents@[q] as int, t),
        decreases parents@.len() - j,
    {
        let s = parents[j];
        assert(superterms@[term as int]@.contains(s));
        let ghost before = rel@;
        go(rel, nodes, superterms, term, equiv, s, Vec::new(), 0, false, Ghost(asserted));
        assert forall|q: int, t: int|
            0 <= q < j + 1 && #[trigger] rewrite_of(nodes@, parents@[q] as int, t, term as int, equiv as int) implies edge(rel@, parents@[q] as int, t) by {
            if q < j {
                assert(edge(before, parents@[q] as int, t));
            }
        }
        j = j + 1;
    }
    assert forall|s: int, t: int| #[trigger] rewrite_of(nodes@, s, t, term as int, equiv as int) implies edge(rel@, s, t) by {
        let k = choose|k: int| 0 <= k < nodes@[s].args@.len() && #[trigger] nodes@[s].args@[k] == term as int && nodes@[t].args@[k] == equiv as int;
        let su = s as usize;
        assert(nodes@[s].args@[k] == term);
        assert(nodes@[s].args@.contains(term));
        assert(s < n);
        assert(su as int == s);
        assert(superterms@[term as int]@.contains(su));
        let q = choose|q: int| 0 <= q < parents@.len() && parents@[q] == s as usize;
        assert(rewrite_of(nodes@, parents@[q] as int, t, term as int, equiv as int));
    }
}

/// Enumerate the rewrites of application `s` position by position: the
/// arguments before `i` are fixed to `prefix`, and `changed` says whether
/// one of them was replaced.
fn go(
    rel: &mut Vec<Vec<usize>>,
    nodes: &Vec<Node>,
    superterms: &Vec<Vec<usize>>,
    term: usize,
    equiv: usize,
    s: usize,
    prefix: Vec<usize>,
    i: usize,
    changed: bool,
    Ghost(asserted): Ghost<Set<(int, int)>>,
)
    requires
        table_wf(nodes@),
        sup_wf(nodes@, superterms@),
        rel_wf(old(rel)@, nodes@.len()),
        justified(nodes@, old(rel)@, asserted),
        term < nodes@.len(),
        equiv < nodes@.len(),
        edge(old(rel)@, term as int, equiv as int),
        s < nodes@.len(),
        nodes@[s as int].is_app,
        nodes@[s as int].args@.contains(term),
        i <= nodes@[s as int].args@.len(),
        prefix@.len() == i,
        forall|k: int| 0 <= k < i ==> #[trigger] prefix@[k] == nodes@[s as int].args@[k] || (nodes@[s as int].args@[k] == term && prefix@[k] == equiv),
        changed ==> exists|k: int| 0 <= k < i && #[trigger] prefix@[k] == equiv && nodes@[s as int].args@[k] == term,
    ensures
        rel_wf(final(rel)@, nodes@.len()),
        justified(nodes@, final(rel)@, asserted),
        grows(old(rel)@, final(rel)@),
        forall|t: int|
            #[trigger] rewrite_of(nodes@, s as int, t, term as int, equiv as int)
                && (forall|k: int| 0 <= k < i ==> #[trigger] nodes@[t].args@[k] == prefix@[k])
                && (changed || exists|k: int| i <= k < nodes@[s as int].args@.len() && #[trigger] nodes@[s as int].args@[k] == term && nodes@[t].args@[k] == equiv)
                ==> edge(final(rel)@, s as int, t),
    decreases 2 * nodes@.len() - term - equiv, 0int, 0int + nodes@[s as int].args@.len() - i,
{
    let params = &nodes[s].args;
    let ghost sv = s as int;
    let ghost len = params@.len();
    if i == params.len() {
        if changed {
            match lookup(nodes, true, nodes[s].symbol, &prefix) {
                Some(t0) => {
                    proof {
                        let k = choose|k: int| 0 <= k < i && #[trigger] prefix@[k] == equiv && nodes@[sv].args@[k] == term;
                        assert(nodes@[t0 as int].args@[k] < t0);
                        let kt = choose|kt: int| 0 <= kt < nodes@[sv].args@.len() && nodes@[sv].args@[kt] == term;
                        assert(nodes@[sv].args@[kt] < s);
                        assert forall|k: int| 0 <= k < nodes@[sv].args@.len() implies equal(rel@, #[trigger] nodes@[sv].args@[k] as int, nodes@[t0 as int].args@[k] as int) by {
                            if prefix@[k] == nodes@[sv].args@[k] {
                                assert(reach_in(rel@, nodes@[sv].args@[k] as int, nodes@[sv].args@[k] as int, 0));
                            } else {
                                lemma_edge_equal(rel@, term as int, equiv as int);
                            }
                        }
                        assert(congruent(nodes@, rel@, sv, t0 as int));
                        lemma_congruent_derivable(nodes@, rel@, asserted, sv, t0 as int);
                    }
                    add_equiv(rel, nodes, superterms, s, t0, Ghost(asserted));
                    proof {
                        assert forall|t: int|
                            #[trigger] rewrite_of(nodes@, sv, t, term as int, equiv as int)
                                && (forall|k: int| 0 <= k < i ==> #[trigger] nodes@[t].args@[k] == prefix@[k])
                                implies edge(rel@, sv, t) by {
                            assert(nodes@[t].args@ =~= prefix@);
                            assert(key(nodes@[t]) == key(nodes@[t0 as int]));
                        }
                    }
                },
                None => {
                    assert forall|t: int|
                        #[trigger] rewrite_of(nodes@, sv, t, term as int, equiv as int)
                            && (forall|k: int| 0 <= k < i ==> #[trigger] nodes@[t].args@[k] == prefix@[k])
                            implies false by {
                        assert(nodes@[t].args@ =~= prefix@);
                        assert(key(nodes@[t]) == (true, nodes@[sv].symbol, prefix@));
                    }
                },
            }
        }
        return;
    }
    let p = params[i];
    let ghost e0 = rel@;
    if p == term {
        let mut prefix_changed = prefix.clone();
        assert(prefix_changed@ == prefix@);
        prefix_changed.push(equiv);
        assert(prefix_changed@[i as int] == equiv);
        go(rel, nodes, superterms, term, equiv, s, prefix_changed, i + 1, true, Ghost(asserted));
    }
    let ghost e1 = rel@;
    let mut prefix_same = prefix.clone();
    assert(prefix_same@ == prefix@);
    prefix_same.push(p);
    proof {
        if changed {
            let k = choose|k: int| 0 <= k < i && #[trigger] prefix@[k] == equiv && nodes@[sv].args@[k] == term;
            assert(prefix_same@[k] == equiv);
        }
    }
    go(rel, nodes, superterms, term, equiv, s, prefix_same, i + 1, changed, Ghost(asserted));
    proof {
        assert forall|t: int|
            #[trigger] rewrite_of(nodes@, sv, t, term as int, equiv as int)
                && (forall|k: int| 0 <= k < i ==> #[trigger] nodes@[t].args@[k] == prefix@[k])
                && (changed || exists|k: int| i <= k < nodes@[sv].args@.len() && #[trigger] nodes@[sv].args@[k] == term && nodes@[t].args@[k] == equiv)
                implies edge(rel@, sv, t) by {
            if p == term && nodes@[t].args@[i as int] == equiv {
                assert(forall|k: int| 0 <= k < i + 1 ==> #[trigger] nodes@[t].args@[k] == prefix@.push(equiv)[k]);
                assert(edge(e1, sv, t));
            } else {
                assert(nodes@[t].args@[i as int] == p);
                assert(forall|k: int| 0 <= k < i + 1 ==> #[trigger] nodes@[t].args@[k] == prefix_same@[k]);
                if !changed {
                    let k = choose|k: int| i <= k < nodes@[sv].args@.len() && #[trigger] nodes@[sv].args@[k] == term && nodes@[t].args@[k] == equiv;
                    assert(k != i);
                }
            }
        }
    }
}

/// How many nodes below `j` are not known equal to node `a`.
pub open spec fn apart_in_row(e: Seq<Vec<usize>>, a: int, j: nat) -> nat
    decreases j,
{
    if j == 0 {
        0
    } else {
        apart_in_row(e, a, (j - 1) as nat) + if equal(e, a, j - 1) {
            0nat
        } else {
            1nat
        }
    }
}

/// How many pairs of nodes, the first below `rows` and the second below
/// `n`, are not known equal.
pub open spec fn apart_pairs(e: Seq<Vec<usize>>, rows: nat, n: nat) -> nat
    decreases rows,
{
    if rows == 0 {
        0
    } else {
        apart_pairs(e, (rows - 1) as nat, n) + apart_in_row(e, rows - 1, n)
    }
}

proof fn lemma_apart_in_row(e1: Seq<Vec<usize>>, e2: Seq<Vec<usize>>, a: int, j: nat, b: int)
    requires
        grows(e1, e2),
    ensures
        apart_in_row(e2, a, j) <= apart_in_row(e1, a, j),
        0 <= b < j && !equal(e1, a, b) && equal(e2, a, b) ==> apart_in_row(e2, a, j) < apart_in_row(e1, a, j),
    decreases j,
{
    if j > 0 {
        lemma_apart_in_row(e1, e2, a, (j - 1) as nat, b);
        if equal(e1, a, j - 1) {
            lemma_equal_grows(e1, e2, a, j - 1);
        }
    }
}

proof fn lemma_apart_pairs(e1: Seq<Vec<usize>>, e2: Seq<Vec<usize>>, rows: nat, n: nat, a: int, b: int)
    requires
        grows(e1, e2),
    ensures
        apart_pairs(e2, rows, n) <= apart_pairs(e1, rows, n),
        0 <= a < rows && 0 <= b < n && !equal(e1, a, b) && equal(e2, a, b) ==> apart_pairs(e2, rows, n) < apart_pairs(e1, rows, n),
    decreases rows,
{
    if rows > 0 {
        lemma_apart_pairs(e1, e2, (rows - 1) as nat, n, a, b);
        lemma_apart_in_row(e1, e2, rows - 1, n, b);
    }
}

/// List the pairs of distinct congruent nodes not yet known equal.
fn congruent_pairs(rel: &Vec<Vec<usize>>, nodes: &Vec<Node>) -> (r: Vec<(usize, usize)>)
    requires
        table_wf(nodes@),
        rel_wf(rel@, nodes@.len()),
    ensures
        forall|k: int| 0 <= k < r@.len() ==> congruent(nodes@, rel@, (#[trigger] r@[k]).0 as int, r@[k].1 as int)
            && !equal(rel@, r@[k].0 as int, r@[k].1 as int),
        r@.len() == 0 ==> congruence_closed(nodes@, rel@),
{
    let n = nodes.len();
    let mut out: Vec<(usize, usize)> = Vec::new();
    let mut a: usize = 0;
    while a < n
        invariant
            n == nodes@.len(),
            table_wf(nodes@),
            rel_wf(rel@, nodes@.len()),
            a <= n,
            forall|k: int| 0 <= k < out@.len() ==> congruent(nodes@, rel@, (#[trigger] out@[k]).0 as int, out@[k].1 as int)
                && !equal(rel@, out@[k].0 as int, out@[k].1 as int),
            out@.len() == 0 ==> forall|x: int, y: int| 0 <= x < a && #[trigger] congruent(nodes@, rel@, x, y) ==> equal(rel@, x, y),
        decreases n - a,
    {
        let na = &nodes[a];
        let mut b: usize = 0;
        while b < n
            invariant
                n == nodes@.len(),
                table_wf(nodes@),
                rel_wf(rel@, nodes@.len()),
                a < n,
                na == nodes@[a as int],
                b <= n,
                forall|k: int| 0 <= k < out@.len() ==> congruent(nodes@, rel@, (#[trigger] out@[k]).0 as int, out@[k].1 as int)
                    && !equal(rel@, out@[k].0 as int, out@[k].1 as int),
                out@.len() == 0 ==> forall|x: int, y: int| 0 <= x < a && #[trigger] congruent(nodes@, rel@, x, y) ==> equal(rel@, x, y),
                out@.len() == 0 ==> forall|y: int| 0 <= y < b && #[trigger] congruent(nodes@, rel@, a as int, y) ==> equal(rel@, a as int, y),
            decreases n - b,
        {
            let nb = &nodes[b];
            if a == b {
                assert(reach_in(rel@, a as int, a as int, 0));
            } else if na.is_app && nb.is_app && na.symbol == nb.symbol && na.args.len() == nb.args.len()
                && !are_equal(rel, a, b) {
                let mut all = true;
                let mut k: usize = 0;
                while k < na.args.len()
                    invariant
                        n == nodes@.len(),
                        table_wf(nodes@),
                        rel_wf(rel@, nodes@.len()),
                        a < n,
                        b < n,
                        na == nodes@[a as int],
                        nb == nodes@[b as int],
                        na.args@.len() == nb.args@.len(),
                        k <= na.args@.len(),
                        all == forall|j: int| 0 <= j < k ==> equal(rel@, #[trigger] na.args@[j] as int, nb.args@[j] as int),
                    decreases na.args@.len() - k,
                {
                    assert(na.args@[k as int] < a && nb.args@[k as int] < b);
                    if !are_equal(rel, na.args[k], nb.args[k]) {
                        all = false;
                    }
                    k = k + 1;
                }
                if all {
                    out.push((a, b));
                }
            }
            b = b + 1;
        }
        a = a + 1;
    }
    out
}

/// Infer every equality that congruence forces, until none is left.
fn infer_implicit_equalities(
    rel: &mut Vec<Vec<usize>>,
    nodes: &Vec<Node>,
    superterms: &Vec<Vec<usize>>,
    Ghost(asserted): Ghost<Set<(int, int)>>,
)
    requires
        table_wf(nodes@),
        sup_wf(nodes@, superterms@),
        rel_wf(old(rel)@, nodes@.len()),
        justified(nodes@, old(rel)@, asserted),
    ensures
        rel_wf(final(rel)@, nodes@.len()),
        justified(nodes@, final(rel)@, asserted),
        grows(old(rel)@, final(rel)@),
        congruence_closed(nodes@, final(rel)@),
        congruence_closed(nodes@, old(rel)@) ==> final(rel)@ == old(rel)@,
{
    let n = nodes.len();
    let ghost e0 = rel@;
    loop
        invariant
            n == nodes@.len(),
            table_wf(nodes@),
            sup_wf(nodes@, superterms@),
            rel_wf(rel@, nodes@.len()),
            justified(nodes@, rel@, asserted),
            e0 == old(rel)@,
            grows(e0, rel@),
            congruence_closed(nodes@, e0) ==> rel@ == e0,
        decreases apart_pairs(rel@, n as nat, n as nat),
    {
        let pairs = congruent_pairs(rel, nodes);
        if pairs.len() == 0 {
            return;
        }
        proof {
            if congruence_closed(nodes@, e0) {
                assert(congruent(nodes@, rel@, pairs@[0].0 as int, pairs@[0].1 as int));
                assert(false);
            }
        }
        let ghost start = rel@;
        let mut k: usize = 0;
        while k < pairs.len()
            invariant
                n == nodes@.len(),
                table_wf(nodes@),
                sup_wf(nodes@, superterms@),
                rel_wf(start, nodes@.len()),
                justified(nodes@, start, asserted),
                rel_wf(rel@, nodes@.len()),
                justified(nodes@, rel@, asserted),
                grows(e0, start),
                grows(start, rel@),
                pairs@.len() > 0,
                forall|j: int| 0 <= j < pairs@.len() ==> congruent(nodes@, start, (#[trigger] pairs@[j]).0 as int, pairs@[j].1 as int)
                    && !equal(start, pairs@[j].0 as int, pairs@[j].1 as int),
                k <= pairs@.len(),
                k > 0 ==> equal(rel@, pairs@[0].0 as int, pairs@[0].1 as int),
            decreases pairs@.len() - k,
        {
            let (a, b) = pairs[k];
            proof {
                lemma_congruent_derivable(nodes@, start, asserted, a as int, b as int);
            }
            let ghost before = rel@;
            add_equiv(rel, nodes, superterms, a, b, Ghost(asserted));
            proof {
                if k == 0 {
                    lemma_edge_equal(rel@, a as int, b as int);
                } else {
                    lemma_equal_grows(before, rel@, pairs@[0].0 as int, pairs@[0].1 as int);
                }
            }
            k = k + 1;
        }
        proof {
            lemma_apart_pairs(start, rel@, n as nat, n as nat, pairs@[0].0 as int, pairs@[0].1 as int);
        }
    }
}

// ---------------------------------------------------------------------
// The theory
// ---------------------------------------------------------------------

/// The EUF theory: the literals bound to the propositional atoms, the
/// terms they mention, and the equalities and disequalities asserted so
/// far.
pub struct EUF {
    lits: Vec<EUFLiteral>,
    nodes: Vec<Node>,
    bindings: Vec<(usize, usize)>,
    superterms: Vec<Vec<usize>>,
    equivs: Vec<Vec<usize>>,
    inequivs: Vec<(usize, usize)>,
    asserted: Ghost<Set<(int, int)>>,
    history: Ghost<Seq<Literal>>,
}

/// The pairs of nodes that the equalities among the asserted literals
/// join, for literals bound as in `lits` and `bindings`.
pub open spec fn eq_pairs(lits: Seq<EUFLiteral>, bindings: Seq<(usize, usize)>, h: Seq<Literal>) -> Set<(int, int)>
    decreases h.len(),
{
    if h.len() == 0 {
        Set::empty()
    } else {
        let l = h.last();
        let k = l.id() - 1;
        let rest = eq_pairs(lits, bindings, h.drop_last());
        if lits[k].is_equality != (l.0 < 0) {
            rest.insert((bindings[k].0 as int, bindings[k].1 as int))
        } else {
            rest
        }
    }
}

/// The pairs of nodes that the disequalities among the asserted literals
/// separate, in order.
pub open spec fn diseq_pairs(lits: Seq<EUFLiteral>, bindings: Seq<(usize, usize)>, h: Seq<Literal>) -> Seq<(usize, usize)>
    decreases h.len(),
{
    if h.len() == 0 {
        seq![]
    } else {
        let l = h.last();
        let k = l.id() - 1;
        let rest = diseq_pairs(lits, bindings, h.drop_last());
        if lits[k].is_equality != (l.0 < 0) {
            rest
        } else {
            rest.push(bindings[k])
        }
    }
}

proof fn lemma_eq_pairs_has(lits: Seq<EUFLiteral>, bindings: Seq<(usize, usize)>, m: Seq<Literal>, l: Literal)
    requires
        m.contains(l),
        lits[l.id() - 1].is_equality != (l.0 < 0),
    ensures
        eq_pairs(lits, bindings, m).contains((bindings[l.id() - 1].0 as int, bindings[l.id() - 1].1 as int)),
    decreases m.len(),
{
    if m.last() != l {
        let j = choose|j: int| 0 <= j < m.len() && m[j] == l;
        assert(m.drop_last()[j] == l);
        lemma_eq_pairs_has(lits, bindings, m.drop_last(), l);
    }
}

proof fn lemma_diseq_pairs_has(lits: Seq<EUFLiteral>, bindings: Seq<(usize, usize)>, m: Seq<Literal>, l: Literal)
    requires
        m.contains(l),
        lits[l.id() - 1].is_equality == (l.0 < 0),
    ensures
        diseq_pairs(lits, bindings, m).contains(bindings[l.id() - 1]),
    decreases m.len(),
{
    let d = diseq_pairs(lits, bindings, m);
    if m.last() != l {
        let j = choose|j: int| 0 <= j < m.len() && m[j] == l;
        assert(m.drop_last()[j] == l);
        lemma_diseq_pairs_has(lits, bindings, m.drop_last(), l);
        let dr = diseq_pairs(lits, bindings, m.drop_last());
        let i = choose|i: int| 0 <= i < dr.len() && dr[i] == bindings[l.id() - 1];
        assert(d[i] == dr[i]);
    } else {
        assert(d[d.len() - 1] == bindings[l.id() - 1]);
    }
}

proof fn lemma_pairs_included(lits: Seq<EUFLiteral>, bindings: Seq<(usize, usize)>, h: Seq<Literal>, m: Seq<Literal>)
    requires
        includes(m, h),
    ensures
        eq_pairs(lits, bindings, h).subset_of(eq_pairs(lits, bindings, m)),
        forall|p: (usize, usize)| #[trigger] diseq_pairs(lits, bindings, h).contains(p) ==> diseq_pairs(lits, bindings, m).contains(p),
    decreases h.len(),
{
    if h.len() > 0 {
        let l = h.last();
        assert(h.contains(l));
        assert(includes(m, h.drop_last())) by {
            assert forall|x: Literal| #[trigger] h.drop_last().contains(x) implies m.contains(x) by {
                let j = choose|j: int| 0 <= j < h.drop_last().len() && h.drop_last()[j] == x;
                assert(h[j] == x);
                assert(h.contains(x));
            }
        }
        lemma_pairs_included(lits, bindings, h.drop_last(), m);
        if lits[l.id() - 1].is_equality != (l.0 < 0) {
            lemma_eq_pairs_has(lits, bindings, m, l);
            assert(diseq_pairs(lits, bindings, h) == diseq_pairs(lits, bindings, h.drop_last()));
        } else {
            lemma_diseq_pairs_has(lits, bindings, m, l);
            let dh = diseq_pairs(lits, bindings, h);
            let dr = diseq_pairs(lits, bindings, h.drop_last());
            assert(dh == dr.push(bindings[l.id() - 1]));
            assert forall|p: (usize, usize)| #[trigger] dh.contains(p) implies diseq_pairs(lits, bindings, m).contains(p) by {
                let i = choose|i: int| 0 <= i < dh.len() && dh[i] == p;
                if i < dr.len() {
                    assert(dr[i] == p);
                    assert(dr.contains(p));
                }
            }
        }
    }
}

/// A list of literals whose disequalities hold a pair that its equalities
/// make derivably equal is not accepted.
proof fn lemma_rejected(th: &EUF, m: Seq<Literal>, p: (usize, usize))
    requires
        diseq_pairs(th.lits@, th.bindings@, m).contains(p),
        derivable(th.nodes@, eq_pairs(th.lits@, th.bindings@, m), p.0 as int, p.1 as int),
    ensures
        !th.accepts(m),
{
    let d = diseq_pairs(th.lits@, th.bindings@, m);
    let k = choose|k: int| 0 <= k < d.len() && d[k] == p;
}

/// What the state knows equal stays derivable among any literals that
/// include what was asserted.
proof fn lemma_known_in(th: &EUF, m: Seq<Literal>, x: int, y: int)
    requires
        th.wf(),
        includes(m, th.asserted()),
        th.known_equal(x, y),
    ensures
        derivable(th.nodes@, eq_pairs(th.lits@, th.bindings@, m), x, y),
        derivable(th.nodes@, eq_pairs(th.lits@, th.bindings@, m), y, x),
{
    lemma_known_equal_is_derived(th, x, y);
    lemma_pairs_included(th.lits@, th.bindings@, th.history@, m);
    let k = choose|k: nat| #[trigger] derives(th.nodes@, th.asserted@, k, x, y);
    lemma_derives_asserted_more(th.nodes@, th.asserted@, eq_pairs(th.lits@, th.bindings@, m), k, x, y);
    lemma_derives_sym(th.nodes@, eq_pairs(th.lits@, th.bindings@, m), k, x, y);
}

/// The verdicts of `decide` hold in every accepted list of literals that
/// includes what was asserted.
proof fn lemma_decide_sound(th: &EUF, lit: Literal, m: Seq<Literal>)
    requires
        th.wf(),
        lit.wf(),
        th.knows_atom(lit.id()),
        th.accepts(m),
        includes(m, th.asserted()),
    ensures
        th.verdict(lit) == Some(true) ==> !m.contains(lit.neg()),
        th.verdict(lit) == Some(false) ==> !m.contains(lit),
{
    lemma_negation(th, lit);
    let l = th.lit_left(lit);
    let r = th.lit_right(lit);
    let k = lit.id() - 1;
    let em = eq_pairs(th.lits@, th.bindings@, m);
    assert(th.bindings@[k].0 < th.nodes@.len() && th.bindings@[k].1 < th.nodes@.len());
    assert(th.bindings@[k] == (l as usize, r as usize));
    // the literal standing as an equality of l and r, or as a disequality
    let eq_lit = if th.lit_is_equality(lit) { lit } else { lit.neg() };
    let ne_lit = if th.lit_is_equality(lit) { lit.neg() } else { lit };
    assert(lit.neg().id() == lit.id());
    if m.contains(ne_lit) {
        lemma_diseq_pairs_has(th.lits@, th.bindings@, m, ne_lit);
        if l == r {
            assert(derives(th.nodes@, em, 0, l, r));
            lemma_rejected(th, m, th.bindings@[k]);
        } else if th.known_equal(l, r) {
            lemma_known_in(th, m, l, r);
            lemma_rejected(th, m, th.bindings@[k]);
        }
    }
    if m.contains(eq_lit) && l != r && th.known_unequal(l, r) {
        lemma_eq_pairs_has(th.lits@, th.bindings@, m, eq_lit);
        assert(derives(th.nodes@, em, 1, l, r));
        assert(derives(th.nodes@, em, 1, r, l));
        let d = th.inequivs@;
        let j = choose|j: int|
            0 <= j < d.len() && ((equal(th.equivs@, l, (#[trigger] d[j]).0 as int) && equal(th.equivs@, r, d[j].1 as int)) || (
            equal(th.equivs@, l, d[j].1 as int) && equal(th.equivs@, r, d[j].0 as int)));
        let x = d[j].0 as int;
        let y = d[j].1 as int;
        lemma_pairs_included(th.lits@, th.bindings@, th.history@, m);
        assert(diseq_pairs(th.lits@, th.bindings@, th.history@).contains(d[j]));
        if equal(th.equivs@, l, x) && equal(th.equivs@, r, y) {
            lemma_known_in(th, m, l, x);
            lemma_known_in(th, m, r, y);
            lemma_derivable_trans(th.nodes@, em, x, l, r);
            lemma_derivable_trans(th.nodes@, em, x, r, y);
        } else {
            lemma_known_in(th, m, l, y);
            lemma_known_in(th, m, r, x);
            lemma_derivable_trans(th.nodes@, em, x, r, l);
            lemma_derivable_trans(th.nodes@, em, x, l, y);
        }
        lemma_rejected(th, m, d[j]);
    }
}

/// A consistent state never has two nodes both known equal and known
/// unequal.
proof fn lemma_not_both(e: Seq<Vec<usize>>, n: nat, d: Seq<(usize, usize)>, a: int, b: int)
    requires
        rel_wf(e, n),
        forall|k: int| 0 <= k < d.len() ==> !equal(e, (#[trigger] d[k]).0 as int, d[k].1 as int),
    ensures
        !(equal(e, a, b) && unequal(e, d, a, b)),
{
    if equal(e, a, b) && unequal(e, d, a, b) {
        let k = choose|k: int|
            0 <= k < d.len() && ((equal(e, a, (#[trigger] d[k]).0 as int) && equal(e, b, d[k].1 as int)) || (
            equal(e, a, d[k].1 as int) && equal(e, b, d[k].0 as int)));
        let x = d[k].0 as int;
        let y = d[k].1 as int;
        lemma_equal_equivalence(e, n, a, x, b);
        lemma_equal_equivalence(e, n, a, y, b);
        lemma_equal_equivalence(e, n, x, a, b);
        lemma_equal_equivalence(e, n, y, a, b);
        lemma_equal_equivalence(e, n, b, y, x);
        lemma_equal_equivalence(e, n, b, x, y);
        lemma_equal_equivalence(e, n, x, b, y);
        lemma_equal_equivalence(e, n, y, b, x);
    }
}

impl EUF {
    /// The literal of the theory that a propositional literal stands for is
    /// an equality (rather than a disequality).
    pub closed spec fn lit_is_equality(&self, lit: Literal) -> bool {
        self.lits@[lit.id() - 1].is_equality != (lit.0 < 0)
    }

    /// The node of the left side of the literal's terms.
    pub closed spec fn lit_left(&self, lit: Literal) -> int {
        self.bindings@[lit.id() - 1].0 as int
    }

    /// The node of the right side of the literal's terms.
    pub closed spec fn lit_right(&self, lit: Literal) -> int {
        self.bindings@[lit.id() - 1].1 as int
    }

    /// The nodes are known to be equal.
    pub closed spec fn known_equal(&self, a: int, b: int) -> bool {
        equal(self.equivs@, a, b)
    }

    /// The nodes are known to be unequal.
    pub closed spec fn known_unequal(&self, a: int, b: int) -> bool {
        unequal(self.equivs@, self.inequivs@, a, b)
    }

    /// Assert the literal of the theory that a propositional literal stands
    /// for.  An equality joins its two sides (nothing changes when they are
    /// the same term); a disequality records its pair.  Congruence is then
    /// closed again.  What was known equal stays known equal.
    pub fn assert_literal(&mut self, model_lit: Literal)
        requires
            old(self).wf(),
            model_lit.wf(),
            old(self).knows_atom(model_lit.id()),
            old(self).admits(model_lit),
        ensures
            final(self).wf(),
            final(self).same_setup(old(self)),
            final(self).literals() == old(self).literals(),
            final(self).asserted() == old(self).asserted().push(model_lit),
            final(self).closed_under_congruence(),
            forall|a: int, b: int| old(self).known_equal(a, b) ==> #[trigger] final(self).known_equal(a, b),
            ({
                let l = old(self).lit_left(model_lit);
                let r = old(self).lit_right(model_lit);
                if old(self).lit_is_equality(model_lit) {
                    &&& final(self).disequalities() == old(self).disequalities()
                    &&& final(self).known_equal(l, r)
                    &&& l == r ==> forall|a: int, b: int| #[trigger] final(self).known_equal(a, b) == old(self).known_equal(a, b)
                } else {
                    final(self).disequalities() == old(self).disequalities().push((l as usize, r as usize))
                }
            }),
            final(self).consistent() ==> final(self).verdict(model_lit) == Some(true),
            forall|a: int, b: int| #[trigger] final(self).known_equal(a, b) == final(self).derived_equal(a, b),
            final(self).disequalities() == final(self).derived_disequalities(),
    {
        let ghost e_start = self.equivs@;
        let ghost h0 = self.history@;
        let ghost a0 = self.asserted@;
        let (is_equality, left, right) = self.to_euf_lit(model_lit);
        self.history = Ghost(self.history@.push(model_lit));
        proof {
            assert(self.history@.drop_last() =~= h0);
        }
        if is_equality {
            let ghost a = self.asserted@.insert((left as int, right as int));
            assert forall|x: int, y: int| #[trigger] edge(self.equivs@, x, y) implies justifies(self.nodes@, a, x, y) by {
                assert(justifies(self.nodes@, self.asserted@, x, y));
                let k = choose|k: nat| #[trigger] derives(self.nodes@, self.asserted@, k, x, y);
                lemma_derives_asserted_more(self.nodes@, self.asserted@, a, k, x, y);
            }
            assert(derives(self.nodes@, a, 1, left as int, right as int));
            self.asserted = Ghost(a);
            if left == right {
                assert(reach_in(self.equivs@, left as int, left as int, 0));
                assert forall|p: (int, int)| #[trigger] self.asserted@.contains(p) implies equal(self.equivs@, p.0, p.1) by {
                    if p != (left as int, right as int) {
                        assert(a0.contains(p));
                    }
                }
                assert forall|a: int, b: int| #[trigger] self.known_equal(a, b) == self.derived_equal(a, b) by {
                    lemma_known_equal_is_derived(self, a, b);
                }
                return;
            }
            add_equiv(&mut self.equivs, &self.nodes, &self.superterms, left, right, Ghost(a));
            proof {
                lemma_edge_equal(self.equivs@, left as int, right as int);
            }
        } else {
            self.inequivs.push((left, right));
            assert forall|k: int| 0 <= k < self.inequivs@.len() implies (#[trigger] self.inequivs@[k]).0 < self.nodes@.len()
                && self.inequivs@[k].1 < self.nodes@.len() by {}
        }
        let ghost e1 = self.equivs@;
        assert(grows(e_start, e1));
        infer_implicit_equalities(&mut self.equivs, &self.nodes, &self.superterms, Ghost(self.asserted@));
        proof {
            if is_equality {
                lemma_equal_grows(e1, self.equivs@, left as int, right as int);
            } else {
                let k = self.inequivs@.len() - 1;
                assert(self.inequivs@[k] == (left, right));
                lemma_self_equal(self.equivs@, self.inequivs@, left as int);
                lemma_self_equal(self.equivs@, self.inequivs@, right as int);
                assert(unequal(self.equivs@, self.inequivs@, left as int, right as int));
            }
            if self.consistent() {
                lemma_not_both(self.equivs@, self.nodes@.len(), self.inequivs@, left as int, right as int);
            }
            assert forall|x: int, y: int| equal(e_start, x, y) implies #[trigger] equal(self.equivs@, x, y) by {
                lemma_equal_grows(e_start, self.equivs@, x, y);
            }
            assert forall|p: (int, int)| #[trigger] self.asserted@.contains(p) implies equal(self.equivs@, p.0, p.1) by {
                if is_equality && p == (left as int, right as int) {
                } else {
                    assert(a0.contains(p));
                    lemma_equal_grows(e_start, self.equivs@, p.0, p.1);
                }
            }
            assert forall|a: int, b: int| #[trigger] self.known_equal(a, b) == self.derived_equal(a, b) by {
                lemma_known_equal_is_derived(self, a, b);
            }
        }
    }


    /// The nodes are equal in the least congruence that holds the
    /// equalities among the asserted literals.
    pub closed spec fn derived_equal(&self, a: int, b: int) -> bool {
        derivable(self.nodes@, eq_pairs(self.lits@, self.bindings@, self.history@), a, b)
    }

    /// The disequalities among the asserted literals, as pairs of nodes, in
    /// order.
    pub closed spec fn derived_disequalities(&self) -> Seq<(usize, usize)> {
        diseq_pairs(self.lits@, self.bindings@, self.history@)
    }

    /// The recorded disequalities, as pairs of nodes.
    pub closed spec fn disequalities(&self) -> Seq<(usize, usize)> {
        self.inequivs@
    }

    /// Node `id` of the table is the term `t`.
    pub closed spec fn node_is(&self, id: int, t: EUFTerm) -> bool {
        denotes(self.nodes@, id, t)
    }

    /// The literals bound to the atoms, in order.
    pub closed spec fn literals(&self) -> Seq<EUFLiteral> {
        self.lits@
    }

    /// The number of interned terms.
    pub closed spec fn num_terms(&self) -> nat {
        self.nodes@.len()
    }

    /// Every congruence among the terms is known.
    pub closed spec fn closed_under_congruence(&self) -> bool {
        congruence_closed(self.nodes@, self.equivs@)
    }

    /// Parse an EUF theory and formula represented as a string.  See
    /// `crate::parse::euf::from_string` for the format.
    pub fn from_string(input: String) -> (r: Result<(EUF, crate::cnf::Formula), crate::parse::euf::ParseError>)
        ensures
            ({
                let ls = crate::dimacs::lines(input@);
                let k = crate::parse::euf::separator(ls, 0);
                match r {
                    Ok((t, f)) => {
                        &&& t.wf()
                        &&& t.fresh()
                        &&& t.literals().len() == k
                        &&& forall|i: int| 0 <= i < k ==> crate::parse::euf::states(ls[i], #[trigger] t.literals()[i])
                        &&& forall|a: int| #[trigger] t.knows_atom(a) == (1 <= a <= k)
                        &&& crate::dimacs::result_is(Ok(f), crate::dimacs::outcome(ls, k + 1))
                    },
                    Err(crate::parse::euf::ParseError::DIMACSError(e)) => crate::dimacs::result_is(
                        Err(e),
                        crate::dimacs::outcome(ls, k + 1),
                    ),
                    Err(_) => exists|i: int| 0 <= i < k && #[trigger] crate::parse::euf::states_nothing(ls[i]),
                }
            }),
            ({
                let ls = crate::dimacs::lines(input@);
                let k = crate::parse::euf::separator(ls, 0);
                (forall|i: int| 0 <= i < k ==> !#[trigger] crate::parse::euf::states_nothing(ls[i]))
                    && crate::dimacs::outcome(ls, k + 1) is Parsed ==> r is Ok
            }),
            ({
                let ls = crate::dimacs::lines(input@);
                let k = crate::parse::euf::separator(ls, 0);
                r matches Err(e) ==> (e is DIMACSError || exists|i: int|
                    0 <= i < k && #[trigger] crate::parse::euf::lit_read_error(ls[i]) == Some(e) && forall|j: int|
                        0 <= j < i ==> crate::parse::euf::lit_read_error(#[trigger] ls[j]) is None)
            }),
    {
        crate::parse::euf::from_string(input)
    }

    /// Construct an EUF theory for the given set of literals.  For
    /// cnf literal X, lits[X-1] should be the corresponding euf
    /// literal.
    pub fn new(lits: Vec<EUFLiteral>) -> (r: EUF)
        ensures
            r.wf(),
            r.fresh(),
            r.closed_under_congruence(),
            r.literals() == lits@,
            r.asserted() == Seq::<Literal>::empty(),
            forall|a: int| #[trigger] r.knows_atom(a) == (1 <= a <= lits@.len()),
    {
        let mut nodes: Vec<Node> = Vec::new();
        let mut bindings: Vec<(usize, usize)> = Vec::new();
        let mut k: usize = 0;
        while k < lits.len()
            invariant
                table_wf(nodes@),
                k <= lits@.len(),
                bindings@.len() == k,
                forall|j: int| 0 <= j < k ==> (#[trigger] bindings@[j]).0 < nodes@.len() && bindings@[j].1 < nodes@.len()
                    && denotes(nodes@, bindings@[j].0 as int, lits@[j].left) && denotes(nodes@, bindings@[j].1 as int, lits@[j].right),
            decreases lits@.len() - k,
        {
            let ghost n0 = nodes@;
            let l = intern(&mut nodes, &lits[k].left);
            let ghost n1 = nodes@;
            let r = intern(&mut nodes, &lits[k].right);
            proof {
                lemma_denotes_extend(n1, nodes@, l as int, lits@[k as int].left);
                assert forall|j: int| 0 <= j < k implies (#[trigger] bindings@[j]).0 < nodes@.len() && bindings@[j].1 < nodes@.len()
                    && denotes(nodes@, bindings@[j].0 as int, lits@[j].left) && denotes(nodes@, bindings@[j].1 as int, lits@[j].right) by {
                    lemma_denotes_extend(n0, nodes@, bindings@[j].0 as int, lits@[j].left);
                    lemma_denotes_extend(n0, nodes@, bindings@[j].1 as int, lits@[j].right);
                }
            }
            bindings.push((l, r));
            k = k + 1;
        }
        let superterms = compute_superterms(&nodes);
        let equivs = empty_rows(nodes.len());
        let r = EUF {
            lits,
            nodes,
            bindings,
            superterms,
            equivs,
            inequivs: Vec::new(),
            asserted: Ghost(Set::empty()),
            history: Ghost(Seq::empty()),
        };
        proof {
            lemma_empty_closed(r.nodes@, r.equivs@);
        }
        r
    }

    /// The atom is bound to a literal of the theory.
    pub fn binds(&self, atom: isize) -> (r: bool)
        ensures
            r == self.knows_atom(atom as int),
    {
        atom >= 1 && (atom as usize) <= self.lits.len()
    }

    /// The literal of the theory that a propositional literal stands for:
    /// whether it is an equality, and the nodes of its two sides.
    fn to_euf_lit(&self, model_lit: Literal) -> (r: (bool, usize, usize))
        requires
            self.wf(),
            model_lit.wf(),
            self.knows_atom(model_lit.id()),
        ensures
            r.0 == self.lit_is_equality(model_lit),
            r.1 as int == self.lit_left(model_lit),
            r.2 as int == self.lit_right(model_lit),
            r.1 < self.num_terms(),
            r.2 < self.num_terms(),
    {
        let k = (model_lit.get_id() as usize) - 1;
        let (l, r) = self.bindings[k];
        (self.lits[k].is_equality != model_lit.is_negated(), l, r)
    }
}

/// A graph of empty rows.
fn empty_rows(n: usize) -> (r: Vec<Vec<usize>>)
    ensures
        r@.len() == n,
        forall|i: int| 0 <= i < n ==> (#[trigger] r@[i])@.len() == 0,
        rel_wf(r@, n as nat),
        forall|a: int, b: int| !#[trigger] edge(r@, a, b),
{
    let mut rows: Vec<Vec<usize>> = Vec::new();
    let mut i: usize = 0;
    while i < n
        invariant
            i <= n,
            rows@.len() == i,
            forall|j: int| 0 <= j < i ==> (#[trigger] rows@[j])@.len() == 0,
        decreases n - i,
    {
        rows.push(Vec::new());
        i = i + 1;
    }
    rows
}

/// Without edges, only a node is equal to itself.
proof fn lemma_no_edges_equal(e: Seq<Vec<usize>>, a: int, b: int)
    requires
        forall|x: int, y: int| !#[trigger] edge(e, x, y),
    ensures
        equal(e, a, b) == (a == b),
{
    assert(reach_in(e, a, a, 0));
    if equal(e, a, b) {
        let k = choose|k: nat| #[trigger] reach_in(e, a, b, k);
        if a != b {
            let c = choose|c: int| #[trigger] edge(e, a, c) && reach_in(e, c, b, (k - 1) as nat);
        }
    }
}

proof fn lemma_empty_closed(nodes: Seq<Node>, e: Seq<Vec<usize>>)
    requires
        table_wf(nodes),
        forall|x: int, y: int| !#[trigger] edge(e, x, y),
    ensures
        congruence_closed(nodes, e),
{
    assert forall|a: int, b: int| #[trigger] congruent(nodes, e, a, b) implies equal(e, a, b) by {
        assert forall|k: int| 0 <= k < nodes[a].args@.len() implies nodes[a].args@[k] == nodes[b].args@[k] by {
            lemma_no_edges_equal(e, nodes[a].args@[k] as int, nodes[b].args@[k] as int);
        }
        assert(nodes[a].args@ =~= nodes[b].args@);
        assert(key(nodes[a]) == key(nodes[b]));
        assert(reach_in(e, a, a, 0));
    }
}

impl Theory for EUF {
    closed spec fn wf(&self) -> bool {
        &&& table_wf(self.nodes@)
        &&& sup_wf(self.nodes@, self.superterms@)
        &&& rel_wf(self.equivs@, self.nodes@.len())
        &&& justified(self.nodes@, self.equivs@, self.asserted@)
        &&& congruence_closed(self.nodes@, self.equivs@)
        &&& self.bindings@.len() == self.lits@.len()
        &&& forall|j: int|
            0 <= j < self.bindings@.len() ==> (#[trigger] self.bindings@[j]).0 < self.nodes@.len()
                && self.bindings@[j].1 < self.nodes@.len() && denotes(self.nodes@, self.bindings@[j].0 as int, self.lits@[j].left)
                && denotes(self.nodes@, self.bindings@[j].1 as int, self.lits@[j].right)
        &&& forall|k: int| 0 <= k < self.inequivs@.len() ==> (#[trigger] self.inequivs@[k]).0 < self.nodes@.len()
            && self.inequivs@[k].1 < self.nodes@.len()
        &&& forall|p: (int, int)| #[trigger] self.asserted@.contains(p) ==> equal(self.equivs@, p.0, p.1)
        &&& self.asserted@ == eq_pairs(self.lits@, self.bindings@, self.history@)
        &&& self.inequivs@ == diseq_pairs(self.lits@, self.bindings@, self.history@)
    }

    closed spec fn consistent(&self) -> bool {
        forall|k: int| 0 <= k < self.inequivs@.len() ==> !equal(self.equivs@, (#[trigger] self.inequivs@[k]).0 as int, self.inequivs@[k].1 as int)
    }

    closed spec fn knows_atom(&self, atom: int) -> bool {
        1 <= atom <= self.lits@.len()
    }

    closed spec fn admits(&self, lit: Literal) -> bool {
        lit.wf() && self.knows_atom(lit.id()) && (self.lit_is_equality(lit) || self.lit_left(lit) != self.lit_right(lit))
    }

    closed spec fn silent(&self) -> bool {
        false
    }

    closed spec fn verdict(&self, lit: Literal) -> Option<bool> {
        let q = self.lit_is_equality(lit);
        let a = self.lit_left(lit);
        let b = self.lit_right(lit);
        if a == b {
            Some(q)
        } else if self.known_equal(a, b) && !self.known_unequal(a, b) {
            Some(q)
        } else if !self.known_equal(a, b) && self.known_unequal(a, b) {
            Some(!q)
        } else {
            None
        }
    }

    closed spec fn asserted(&self) -> Seq<Literal> {
        self.history@
    }

    closed spec fn same_setup(&self, other: &Self) -> bool {
        &&& self.lits == other.lits
        &&& self.nodes == other.nodes
        &&& self.bindings == other.bindings
        &&& self.superterms == other.superterms
    }

    closed spec fn accepts(&self, m: Seq<Literal>) -> bool {
        let d = diseq_pairs(self.lits@, self.bindings@, m);
        forall|k: int|
            0 <= k < d.len() ==> !derivable(
                self.nodes@,
                eq_pairs(self.lits@, self.bindings@, m),
                (#[trigger] d[k]).0 as int,
                d[k].1 as int,
            )
    }

    closed spec fn decidable(&self, lit: Literal) -> bool {
        lit.wf() && self.knows_atom(lit.id()) ==> !(self.known_equal(self.lit_left(lit), self.lit_right(lit))
            && self.known_unequal(self.lit_left(lit), self.lit_right(lit)))
    }

    closed spec fn fresh(&self) -> bool {
        &&& forall|i: int| 0 <= i < self.equivs@.len() ==> (#[trigger] self.equivs@[i])@.len() == 0
        &&& self.inequivs@.len() == 0
    }

    fn decide(&self, model_lit: Literal) -> (r: Option<bool>) {
        proof {
            assert forall|m: Seq<Literal>| #[trigger] self.accepts(m) && includes(m, self.asserted()) implies (self.verdict(
                model_lit,
            ) == Some(true) ==> !m.contains(model_lit.neg())) && (self.verdict(model_lit) == Some(false)
                ==> !m.contains(model_lit)) by {
                lemma_decide_sound(self, model_lit, m);
            }
        }
        let (is_equality, left, right) = self.to_euf_lit(model_lit);
        proof {
            assert(model_lit.neg().id() == model_lit.id());
            assert(self.lit_left(model_lit.neg()) == self.lit_left(model_lit));
            assert(self.lit_right(model_lit.neg()) == self.lit_right(model_lit));
            assert(self.lit_is_equality(model_lit.neg()) == !self.lit_is_equality(model_lit));
        }
        if left == right {
            return Some(is_equality);
        }
        let eq = are_equal(&self.equivs, left, right);
        let ne = are_unequal(&self.equivs, &self.inequivs, left, right);
        if eq && !ne {
            Some(is_equality)
        } else if !eq && ne {
            Some(!is_equality)
        } else {
            None
        }
    }

    fn incorporate(&mut self, model_lit: Literal)
        ensures
            final(self).literals() == old(self).literals(),
            final(self).closed_under_congruence(),
            forall|a: int, b: int| old(self).known_equal(a, b) ==> #[trigger] final(self).known_equal(a, b),
            ({
                let l = old(self).lit_left(model_lit);
                let r = old(self).lit_right(model_lit);
                if old(self).lit_is_equality(model_lit) {
                    &&& final(self).disequalities() == old(self).disequalities()
                    &&& final(self).known_equal(l, r)
                    &&& l == r ==> forall|a: int, b: int| #[trigger] final(self).known_equal(a, b) == old(self).known_equal(a, b)
                } else {
                    final(self).disequalities() == old(self).disequalities().push((l as usize, r as usize))
                }
            }),
            forall|a: int, b: int| #[trigger] final(self).known_equal(a, b) == final(self).derived_equal(a, b),
    {
        self.assert_literal(model_lit);
    }

    fn forget(&mut self)
        ensures
            final(self).literals() == old(self).literals(),
            final(self).disequalities().len() == 0,
            forall|a: int, b: int| #[trigger] final(self).known_equal(a, b) == (a == b),
    {
        self.equivs = empty_rows(self.nodes.len());
        self.inequivs = Vec::new();
        self.asserted = Ghost(Set::empty());
        self.history = Ghost(Seq::empty());
        proof {
            lemma_empty_closed(self.nodes@, self.equivs@);
            assert forall|a: int, b: int| #[trigger] self.known_equal(a, b) == (a == b) by {
                lemma_no_edges_equal(self.equivs@, a, b);
            }
        }
    }

    fn is_consistent(&self) -> (r: bool) {
        let mut k: usize = 0;
        while k < self.inequivs.len()
            invariant
                self.wf(),
                k <= self.inequivs@.len(),
                forall|j: int| 0 <= j < k ==> !equal(self.equivs@, (#[trigger] self.inequivs@[j]).0 as int, self.inequivs@[j].1 as int),
            decreases self.inequivs@.len() - k,
        {
            let (a, b) = self.inequivs[k];
            if are_equal(&self.equivs, a, b) {
                proof {
                    assert forall|m: Seq<Literal>| #[trigger] self.accepts(m) implies !includes(m, self.asserted()) by {
                        if includes(m, self.asserted()) {
                            lemma_pairs_included(self.lits@, self.bindings@, self.history@, m);
                            assert(diseq_pairs(self.lits@, self.bindings@, self.history@).contains(self.inequivs@[k as int]));
                            lemma_known_in(self, m, a as int, b as int);
                            lemma_rejected(self, m, self.inequivs@[k as int]);
                        }
                    }
                }
                return false;
            }
            k = k + 1;
        }
        assert forall|k: int| 0 <= k < self.inequivs@.len() implies !derivable(
            self.nodes@,
            eq_pairs(self.lits@, self.bindings@, self.history@),
            (#[trigger] self.inequivs@[k]).0 as int,
            self.inequivs@[k].1 as int,
        ) by {
            lemma_known_equal_is_derived(self, self.inequivs@[k].0 as int, self.inequivs@[k].1 as int);
        }
        assert(self.accepts(self.asserted()));
        assert forall|l: Literal| #[trigger] self.decidable(l) by {
            if l.wf() && self.knows_atom(l.id()) {
                lemma_not_both(self.equivs@, self.nodes@.len(), self.inequivs@, self.lit_left(l), self.lit_right(l));
            }
        }
        true
    }
}

/// What `decide` returns, per the table of the theory: the literal's truth
/// when both sides are one term; otherwise true or false when the sides
/// are known equal and not unequal, or unequal and not equal (flipped for a
/// disequality), and no verdict else.
pub proof fn lemma_verdict_table(th: &EUF, lit: Literal)
    ensures
        ({
            let q = th.lit_is_equality(lit);
            let a = th.lit_left(lit);
            let b = th.lit_right(lit);
            th.verdict(lit) == if a == b {
                Some(q)
            } else if th.known_equal(a, b) && !th.known_unequal(a, b) {
                Some(q)
            } else if !th.known_equal(a, b) && th.known_unequal(a, b) {
                Some(!q)
            } else {
                None
            }
        }),
{
}

/// What a literal of the theory means: whether it is an equality, and the
/// nodes that are its two sides, come from the bound literal.
pub proof fn lemma_literal_meaning(th: &EUF, lit: Literal)
    requires
        th.wf(),
        lit.wf(),
        th.knows_atom(lit.id()),
    ensures
        th.lit_is_equality(lit) == (th.literals()[lit.id() - 1].is_equality != (lit.0 < 0)),
        th.node_is(th.lit_left(lit), th.literals()[lit.id() - 1].left),
        th.node_is(th.lit_right(lit), th.literals()[lit.id() - 1].right),
        0 <= th.lit_left(lit) < th.num_terms(),
        0 <= th.lit_right(lit) < th.num_terms(),
{
    assert(th.bindings@[lit.id() - 1].0 < th.nodes@.len());
}

/// Known equality is exactly equality in the least congruence that holds
/// the asserted equalities, and the recorded disequalities are exactly the
/// asserted ones.
pub proof fn lemma_known_equal_is_derived(th: &EUF, a: int, b: int)
    requires
        th.wf(),
    ensures
        th.known_equal(a, b) == th.derived_equal(a, b),
        th.disequalities() == th.derived_disequalities(),
{
    if th.known_equal(a, b) {
        let q = choose|q: nat| #[trigger] reach_in(th.equivs@, a, b, q);
        lemma_reach_derivable(th.nodes@, th.equivs@, th.asserted@, a, b, q);
    }
    if th.derived_equal(a, b) {
        let k = choose|k: nat| #[trigger] derives(th.nodes@, th.asserted@, k, a, b);
        lemma_derives_equal(th.nodes@, th.equivs@, th.asserted@, k, a, b);
    }
}

/// What a well-formed state knows depends only on its setup and on the
/// literals asserted since it was built or reset: in particular, after
/// `forget` and a replay of the trail, the theory answers as a new theory
/// told the same literals.
pub proof fn lemma_state_by_record(s1: &EUF, s2: &EUF, lit: Literal)
    requires
        s1.wf(),
        s2.wf(),
        s1.same_setup(s2),
        s1.asserted() == s2.asserted(),
    ensures
        forall|a: int, b: int| #[trigger] s1.known_equal(a, b) == s2.known_equal(a, b),
        forall|a: int, b: int| #[trigger] s1.known_unequal(a, b) == s2.known_unequal(a, b),
        s1.disequalities() == s2.disequalities(),
        s1.consistent() == s2.consistent(),
        s1.verdict(lit) == s2.verdict(lit),
{
    assert forall|a: int, b: int| #[trigger] s1.known_equal(a, b) == s2.known_equal(a, b) by {
        lemma_known_equal_is_derived(s1, a, b);
        lemma_known_equal_is_derived(s2, a, b);
    }
    lemma_known_equal_is_derived(s1, 0, 0);
    lemma_known_equal_is_derived(s2, 0, 0);
    assert(s1.equivs@.len() == s2.equivs@.len());
    assert forall|a: int, b: int| #[trigger] s1.known_unequal(a, b) == s2.known_unequal(a, b) by {
        assert forall|x: int, y: int| equal(s1.equivs@, x, y) == equal(s2.equivs@, x, y) by {
            assert(s1.known_equal(x, y) == s2.known_equal(x, y));
        }
    }
    assert forall|k: int| 0 <= k < s1.inequivs@.len() implies equal(s1.equivs@, (#[trigger] s1.inequivs@[k]).0 as int, s1.inequivs@[k].1 as int)
        == equal(s2.equivs@, s2.inequivs@[k].0 as int, s2.inequivs@[k].1 as int) by {
        assert(s1.known_equal(s1.inequivs@[k].0 as int, s1.inequivs@[k].1 as int) == s2.known_equal(s1.inequivs@[k].0 as int, s1.inequivs@[k].1 as int));
    }
    assert(s1.known_equal(s1.lit_left(lit), s1.lit_right(lit)) == s2.known_equal(s1.lit_left(lit), s1.lit_right(lit)));
    assert(s1.known_unequal(s1.lit_left(lit), s1.lit_right(lit)) == s2.known_unequal(s1.lit_left(lit), s1.lit_right(lit)));
}

/// A literal and its negation name the same two nodes with the opposite
/// relation, so the theory's verdict on the negation is the flipped
/// verdict.
pub proof fn lemma_negation(th: &EUF, lit: Literal)
    requires
        lit.wf(),
    ensures
        th.lit_left(lit.neg()) == th.lit_left(lit),
        th.lit_right(lit.neg()) == th.lit_right(lit),
        th.lit_is_equality(lit.neg()) == !th.lit_is_equality(lit),
        th.decidable(lit.neg()) == th.decidable(lit),
        th.verdict(lit.neg()) == match th.verdict(lit) {
            Some(b) => Some(!b),
            None => None,
        },
{
    assert(lit.neg().id() == lit.id());
}

/// Two states with the same setup bind the same literals to the same
/// nodes.
pub proof fn lemma_same_setup(a: &EUF, b: &EUF, lit: Literal)
    requires
        a.same_setup(b),
    ensures
        a.literals() == b.literals(),
        a.num_terms() == b.num_terms(),
        a.lit_is_equality(lit) == b.lit_is_equality(lit),
        a.lit_left(lit) == b.lit_left(lit),
        a.lit_right(lit) == b.lit_right(lit),
{
}

/// In any state, a term is known equal to itself and never known unequal
/// to itself.
pub proof fn lemma_term_self(th: &EUF, t: int)
    ensures
        th.known_equal(t, t),
        !th.known_unequal(t, t),
{
    lemma_self_equal(th.equivs@, th.inequivs@, t);
}

/// Known equality is reflexive, symmetric and transitive.
pub proof fn lemma_known_equal_equivalence(th: &EUF, a: int, b: int, c: int)
    requires
        th.wf(),
    ensures
        th.known_equal(a, a),
        th.known_equal(a, b) ==> th.known_equal(b, a),
        th.known_equal(a, b) && th.known_equal(b, c) ==> th.known_equal(a, c),
{
    lemma_equal_equivalence(th.equivs@, th.nodes@.len(), a, b, c);
}

/// A state with nothing asserted (as after `forget`) knows only that each
/// term equals itself, and no disequality.
pub proof fn lemma_fresh_knows_nothing(th: &EUF, a: int, b: int)
    requires
        th.wf(),
        th.fresh(),
    ensures
        th.known_equal(a, b) == (a == b),
        !th.known_unequal(a, b),
{
    assert forall|x: int, y: int| !#[trigger] edge(th.equivs@, x, y) by {
        if 0 <= x < th.equivs@.len() {
            assert(th.equivs@[x]@.len() == 0);
        }
    }
    lemma_no_edges_equal(th.equivs@, a, b);
}

/// A consistent state answers a literal with its truth value: known equal
/// and known unequal exclude each other.
pub proof fn lemma_consistent_decides(th: &EUF, a: int, b: int)
    requires
        th.wf(),
        th.consistent(),
    ensures
        !(th.known_equal(a, b) && th.known_unequal(a, b)),
{
    lemma_not_both(th.equivs@, th.nodes@.len(), th.inequivs@, a, b);
}

} // verus!
