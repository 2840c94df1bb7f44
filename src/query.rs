//! The query model: filters, operators, abstract syntax trees, the
//! `simplify` pass and the textual rendering of a tree.

use vstd::prelude::*;
use crate::text::string_of;

verus! {

broadcast use vstd::std_specs::vec::axiom_vec_index_decreases;

/// A boolean operator joining clauses.
#[derive(PartialEq, Eq, Structural, Clone, Copy, Debug)]
pub enum Operator {
    Or,
    And,
}

/// A search term: an optional field, the phrase and an optional edit
/// distance.
pub struct UserFilter {
    pub field_name: Option<String>,
    pub phrase: String,
    pub levenshtein: Option<u8>,
}

/// The model of a [`UserFilter`].
pub struct Filter {
    pub field_name: Option<Seq<char>>,
    pub phrase: Seq<char>,
    pub levenshtein: Option<u8>,
}

impl View for UserFilter {
    type V = Filter;

    open spec fn view(&self) -> Filter {
        Filter {
            field_name: match self.field_name {
                Some(n) => Some(n@),
                None => None,
            },
            phrase: self.phrase@,
            levenshtein: self.levenshtein,
        }
    }
}

/// A parsed query: a clause of sub-queries joined by one operator, or a
/// single filter.
pub enum UserAST {
    Clause(Operator, Vec<UserAST>),
    Leaf(Box<UserFilter>),
}

/// The model of a [`UserAST`].
pub enum Query {
    Clause(Operator, Seq<Query>),
    Leaf(Filter),
}

impl UserAST {
    /// The model of the tree.
    pub open spec fn model(&self) -> Query
        decreases self, 0nat,
    {
        match self {
            UserAST::Clause(op, qs) => Query::Clause(*op, models(qs@, qs@.len() as int)),
            UserAST::Leaf(f) => Query::Leaf(f@),
        }
    }
}

/// The models of the first `n` trees of `qs`.
pub open spec fn models(qs: Seq<UserAST>, n: int) -> Seq<Query>
    decreases qs, n,
{
    if n <= 0 || n > qs.len() {
        seq![]
    } else {
        models(qs, n - 1).push(qs[n - 1].model())
    }
}

proof fn lemma_models(qs: Seq<UserAST>, n: int)
    requires
        0 <= n <= qs.len(),
    ensures
        models(qs, n).len() == n,
        forall|i: int| 0 <= i < n ==> #[trigger] models(qs, n)[i] == qs[i].model(),
    decreases n,
{
    if n > 0 {
        lemma_models(qs, n - 1);
    }
}

/// The simplified form of a query: every clause is simplified bottom up; a
/// clause with a single child is replaced by its child, the children of a
/// simplified child clause with the same operator are lifted into the
/// clause, and a clause left with a single child is replaced by it.
pub open spec fn simplified(q: Query) -> Query
    decreases q, 0nat,
{
    match q {
        Query::Leaf(_) => q,
        Query::Clause(op, qs) => if qs.len() == 1 {
            simplified(qs[0])
        } else {
            let cs = lifted(op, qs, qs.len() as int);
            if cs.len() == 1 {
                cs[0]
            } else {
                Query::Clause(op, cs)
            }
        },
    }
}

/// What a simplified child contributes to a clause with operator `op`: its
/// children where it is a clause with `op`, else itself.
pub open spec fn lift_one(op: Operator, s: Query) -> Seq<Query> {
    match s {
        Query::Clause(o, sq) => if o == op {
            sq
        } else {
            seq![s]
        },
        Query::Leaf(_) => seq![s],
    }
}

/// The simplified first `n` children of a clause with operator `op`, with
/// same-operator clauses lifted.
pub open spec fn lifted(op: Operator, qs: Seq<Query>, n: int) -> Seq<Query>
    decreases qs, n,
{
    if n <= 0 || n > qs.len() {
        seq![]
    } else {
        lifted(op, qs, n - 1) + lift_one(op, simplified(qs[n - 1]))
    }
}

/// No clause has exactly one child or a child clause with its own
/// operator.
pub open spec fn flat(q: Query) -> bool
    decreases q,
{
    match q {
        Query::Leaf(_) => true,
        Query::Clause(op, qs) => {
            &&& qs.len() != 1
            &&& forall|i: int| 0 <= i < qs.len() ==> !(#[trigger] qs[i] matches Query::Clause(o, _) && o == op)
            &&& forall|i: int| 0 <= i < qs.len() ==> flat(#[trigger] qs[i])
        },
    }
}

/// Every simplified query is flat.
pub proof fn lemma_simplified_is_flat(q: Query)
    ensures
        flat(simplified(q)),
    decreases q, 0nat,
{
    if let Query::Clause(op, qs) = q {
        if qs.len() == 1 {
            lemma_simplified_is_flat(qs[0]);
        } else {
            lemma_lifted_flat(op, qs, qs.len() as int);
        }
    }
}

proof fn lemma_lifted_flat(op: Operator, qs: Seq<Query>, n: int)
    requires
        0 <= n <= qs.len(),
    ensures
        forall|i: int| 0 <= i < lifted(op, qs, n).len() ==> flat(#[trigger] lifted(op, qs, n)[i])
            && !(lifted(op, qs, n)[i] matches Query::Clause(o, _) && o == op),
    decreases qs, n,
{
    if n > 0 {
        lemma_lifted_flat(op, qs, n - 1);
        lemma_simplified_is_flat(qs[n - 1]);
        let prev = lifted(op, qs, n - 1);
        let s = simplified(qs[n - 1]);
        let more = lift_one(op, s);
        assert forall|j: int| 0 <= j < more.len() implies flat(#[trigger] more[j]) && !(more[j] matches Query::Clause(o, _) && o == op) by {
            if let Query::Clause(o, sq) = s {
                if o == op {
                    assert(more[j] == sq[j]);
                }
            }
        }
        let all = lifted(op, qs, n);
        assert(all == prev + more);
        assert forall|i: int| 0 <= i < all.len() implies flat(#[trigger] all[i]) && !(all[i] matches Query::Clause(o, _) && o == op) by {
            if i < prev.len() {
                assert(all[i] == prev[i]);
            } else {
                assert(all[i] == more[i - prev.len()]);
            }
        }
    }
}

/// Simplifying a flat query gives the query itself.
pub proof fn lemma_simplified_flat(q: Query)
    requires
        flat(q),
    ensures
        simplified(q) == q,
    decreases q, 0nat,
{
    if let Query::Clause(op, qs) = q {
        lemma_lifted_of_flat(op, qs, qs.len() as int);
        assert(lifted(op, qs, qs.len() as int) =~= qs);
    }
}

proof fn lemma_lifted_of_flat(op: Operator, qs: Seq<Query>, n: int)
    requires
        0 <= n <= qs.len(),
        forall|i: int| 0 <= i < qs.len() ==> !(#[trigger] qs[i] matches Query::Clause(o, _) && o == op),
        forall|i: int| 0 <= i < qs.len() ==> flat(#[trigger] qs[i]),
    ensures
        lifted(op, qs, n) == qs.subrange(0, n),
    decreases qs, n,
{
    if n > 0 {
        lemma_lifted_of_flat(op, qs, n - 1);
        lemma_simplified_flat(qs[n - 1]);
        assert(qs.subrange(0, n) =~= qs.subrange(0, n - 1).push(qs[n - 1]));
        assert(lift_one(op, qs[n - 1]) =~= seq![qs[n - 1]]);
    }
}

/// Simplification is idempotent: `simplify(simplify(q)) == simplify(q)`.
pub proof fn lemma_simplify_idempotent(q: Query)
    ensures
        simplified(simplified(q)) == simplified(q),
{
    lemma_simplified_is_flat(q);
    lemma_simplified_flat(simplified(q));
}

proof fn lemma_models_concat(a: Seq<UserAST>, b: Seq<UserAST>)
    ensures
        models(a + b, (a + b).len() as int) == models(a, a.len() as int) + models(b, b.len() as int),
{
    lemma_models(a + b, (a + b).len() as int);
    lemma_models(a, a.len() as int);
    lemma_models(b, b.len() as int);
    assert forall|i: int| 0 <= i < (a + b).len() implies #[trigger] models(a + b, (a + b).len() as int)[i]
        == (models(a, a.len() as int) + models(b, b.len() as int))[i] by {
        if i < a.len() {
            assert((a + b)[i] == a[i]);
        } else {
            assert((a + b)[i] == b[i - a.len()]);
        }
    }
    assert(models(a + b, (a + b).len() as int) =~= models(a, a.len() as int) + models(b, b.len() as int));
}

impl UserAST {
    /// Simplifies the tree bottom up: a clause with a single child becomes
    /// the child, and the children of a child clause with the same operator
    /// are lifted into its parent; the result is flat.
    pub fn simplify(self) -> (r: UserAST)
        ensures
            r.model() == simplified(self.model()),
        decreases self,
    {
        let ghost whole = self;
        match self {
            UserAST::Clause(op, queries) => {
                let ghost orig = queries;
                proof {
                    lemma_models(orig@, orig@.len() as int);
                }
                if queries.len() == 1 {
                    let mut queries = queries;
                    let q = queries.pop().unwrap();
                    assert(q == orig@[0]);
                    assert(decreases_to!(whole => orig));
                    return q.simplify();
                }
                let ghost children = models(orig@, orig@.len() as int);
                let n = queries.len();
                let mut queries = queries;
                let mut out: Vec<UserAST> = Vec::new();
                let mut k: usize = 0;
                while queries.len() > 0
                    invariant
                        n == orig@.len(),
                        k <= orig@.len(),
                        queries@ == orig@.subrange(k as int, orig@.len() as int),
                        children == models(orig@, orig@.len() as int),
                        children.len() == orig@.len(),
                        forall|i: int| 0 <= i < orig@.len() ==> #[trigger] children[i] == orig@[i].model(),
                        models(out@, out@.len() as int) == lifted(op, children, k as int),
                        decreases_to!(whole => orig),
                        whole == self,
                    decreases queries@.len(),
                {
                    let c = queries.remove(0);
                    assert(c == orig@[k as int]);
                    assert(decreases_to!(orig => orig[k as int]));
                    assert(decreases_to!(whole => c));
                    let sc = c.simplify();
                    let ghost before = out@;
                    let same = match &sc {
                        UserAST::Clause(o, _) => *o == op,
                        UserAST::Leaf(_) => false,
                    };
                    if same {
                        match sc {
                            UserAST::Clause(o, sub) => {
                                let ghost subv = sub@;
                                let mut sub = sub;
                                out.append(&mut sub);
                                proof {
                                    lemma_models_concat(before, subv);
                                    lemma_models(subv, subv.len() as int);
                                }
                            },
                            UserAST::Leaf(f) => {
                                out.push(UserAST::Leaf(f));
                            },
                        }
                    } else {
                        out.push(sc);
                        proof {
                            lemma_models_concat(before, seq![sc]);
                            assert(before + seq![sc] =~= out@);
                            lemma_models(seq![sc], 1);
                            assert(models(seq![sc], 1) =~= seq![sc.model()]);
                        }
                    }
                    k = k + 1;
                }
                proof {
                    lemma_models(out@, out@.len() as int);
                    assert(orig@.subrange(k as int, orig@.len() as int).len() == 0);
                }
                if out.len() == 1 {
                    let r = out.pop().unwrap();
                    r
                } else {
                    UserAST::Clause(op, out)
                }
            },
            UserAST::Leaf(f) => UserAST::Leaf(f),
        }
    }
}

/// The decimal digit `d`.
pub open spec fn digit_char(d: int) -> char {
    if d == 0 { '0' }
    else if d == 1 { '1' }
    else if d == 2 { '2' }
    else if d == 3 { '3' }
    else if d == 4 { '4' }
    else if d == 5 { '5' }
    else if d == 6 { '6' }
    else if d == 7 { '7' }
    else if d == 8 { '8' }
    else { '9' }
}

/// The decimal notation of `n`.
pub open spec fn decimal(n: nat) -> Seq<char>
    decreases n,
{
    if n < 10 {
        seq![digit_char(n as int)]
    } else {
        decimal(n / 10).push(digit_char((n % 10) as int))
    }
}

/// A filter as text: `field:"phrase"~distance`, without the field or the
/// distance where there is none.
pub open spec fn rendered_filter(f: Filter) -> Seq<char> {
    let head = match f.field_name {
        Some(n) => n.push(':'),
        None => seq![],
    };
    let tail = match f.levenshtein {
        Some(d) => seq!['~'] + decimal(d as nat),
        None => seq![],
    };
    head + (seq!['"'] + f.phrase + seq!['"']) + tail
}

/// The text between two sub-queries of a clause.
pub open spec fn op_text(op: Operator) -> Seq<char> {
    match op {
        Operator::Or => seq![' ', 'O', 'R', ' '],
        Operator::And => seq![' ', 'A', 'N', 'D', ' '],
    }
}

/// A query as text: a clause in parentheses with its sub-queries joined by
/// ` AND ` or ` OR `, a filter as [`rendered_filter`] gives it.
pub open spec fn rendered(q: Query) -> Seq<char>
    decreases q, 0nat,
{
    match q {
        Query::Leaf(f) => rendered_filter(f),
        Query::Clause(op, qs) => seq!['('] + rendered_list(op, qs, qs.len() as int) + seq![')'],
    }
}

/// The first `n` queries of `qs` as text, joined by the text of `op`.
pub open spec fn rendered_list(op: Operator, qs: Seq<Query>, n: int) -> Seq<char>
    decreases qs, n,
{
    if n <= 0 || n > qs.len() {
        seq![]
    } else if n == 1 {
        rendered(qs[0])
    } else {
        rendered_list(op, qs, n - 1) + op_text(op) + rendered(qs[n - 1])
    }
}

/// The decimal digit `d`.
fn digit(d: u32) -> (r: char)
    requires
        d < 10,
    ensures
        r == digit_char(d as int),
{
    if d == 0 { '0' }
    else if d == 1 { '1' }
    else if d == 2 { '2' }
    else if d == 3 { '3' }
    else if d == 4 { '4' }
    else if d == 5 { '5' }
    else if d == 6 { '6' }
    else if d == 7 { '7' }
    else if d == 8 { '8' }
    else { '9' }
}

/// Appends the decimal notation of `n`.
fn push_decimal(out: &mut Vec<char>, n: u32)
    ensures
        final(out)@ == old(out)@ + decimal(n as nat),
    decreases n,
{
    if n >= 10 {
        push_decimal(out, n / 10);
    }
    out.push(digit(n % 10));
}

/// Appends the characters of `s`.
fn push_chars(out: &mut Vec<char>, s: &Vec<char>)
    ensures
        final(out)@ == old(out)@ + s@,
{
    let mut i: usize = 0;
    while i < s.len()
        invariant
            i <= s@.len(),
            out@ == old(out)@ + s@.subrange(0, i as int),
        decreases s@.len() - i,
    {
        out.push(s[i]);
        assert(out@ =~= old(out)@ + s@.subrange(0, i + 1));
        i = i + 1;
    }
    assert(s@.subrange(0, s@.len() as int) == s@);
}

impl UserFilter {
    /// Appends the text of the filter.
    pub fn write_to(&self, out: &mut Vec<char>)
        ensures
            final(out)@ == old(out)@ + rendered_filter(self@),
    {
        match &self.field_name {
            Some(n) => {
                push_chars(out, &crate::text::chars_of(n.as_str()));
                out.push(':');
            },
            None => {},
        }
        out.push('"');
        push_chars(out, &crate::text::chars_of(self.phrase.as_str()));
        out.push('"');
        match self.levenshtein {
            Some(d) => {
                out.push('~');
                push_decimal(out, d as u32);
            },
            None => {},
        }
        assert(out@ =~= old(out)@ + rendered_filter(self@));
    }

    /// The text of the filter: `field:"phrase"~distance`.
    pub fn to_string(&self) -> (r: String)
        ensures
            r@ == rendered_filter(self@),
    {
        let mut out: Vec<char> = Vec::new();
        self.write_to(&mut out);
        assert(out@ =~= rendered_filter(self@));
        string_of(out.as_slice())
    }

    /// The filter as a query tree of its own.
    pub fn into_ast(self) -> (r: UserAST)
        ensures
            r.model() == Query::Leaf(self@),
    {
        UserAST::Leaf(Box::new(self))
    }
}

impl UserAST {
    /// Appends the text of the query.
    pub fn write_to(&self, out: &mut Vec<char>)
        ensures
            final(out)@ == old(out)@ + rendered(self.model()),
        decreases self,
    {
        match self {
            UserAST::Leaf(f) => f.write_to(out),
            UserAST::Clause(op, qs) => {
                proof {
                    lemma_models(qs@, qs@.len() as int);
                }
                let ghost children = models(qs@, qs@.len() as int);
                let ghost start = out@;
                out.push('(');
                let mut i: usize = 0;
                while i < qs.len()
                    invariant
                        i <= qs@.len(),
                        children == models(qs@, qs@.len() as int),
                        children.len() == qs@.len(),
                        forall|k: int| 0 <= k < qs@.len() ==> #[trigger] children[k] == qs@[k].model(),
                        out@ == start + seq!['('] + rendered_list(*op, children, i as int),
                        *self == UserAST::Clause(*op, *qs),
                    decreases qs@.len() - i,
                {
                    if i > 0 {
                        match op {
                            Operator::Or => {
                                out.push(' ');
                                out.push('O');
                                out.push('R');
                                out.push(' ');
                            },
                            Operator::And => {
                                out.push(' ');
                                out.push('A');
                                out.push('N');
                                out.push('D');
                                out.push(' ');
                            },
                        }
                    }
                    assert(decreases_to!(*self => self->Clause_1));
                    assert(decreases_to!(*qs => qs[i as int]));
                    assert(decreases_to!(self => qs[i as int]));
                    let ghost mid = out@;
                    qs[i].write_to(out);
                    assert(out@ =~= start + seq!['('] + rendered_list(*op, children, i + 1));
                    i = i + 1;
                }
                out.push(')');
                assert(out@ =~= old(out)@ + rendered(self.model()));
            },
        }
    }

    /// The text of the query: clauses in parentheses, sub-queries joined by
    /// ` AND ` or ` OR `, filters as `field:"phrase"~distance`.
    pub fn to_string(&self) -> (r: String)
        ensures
            r@ == rendered(self.model()),
    {
        let mut out: Vec<char> = Vec::new();
        self.write_to(&mut out);
        assert(out@ =~= rendered(self.model()));
        string_of(out.as_slice())
    }
}

/// The tree that joins `l` and `r` with `op`: a side that is already a
/// clause with `op` takes the other side as its last child (the left side
/// first), else a new clause holds both.
pub open spec fn combined(l: Query, op: Operator, r: Query) -> Query {
    if l matches Query::Clause(o, _) && o == op {
        Query::Clause(op, l->Clause_1.push(r))
    } else if r matches Query::Clause(o, _) && o == op {
        Query::Clause(op, r->Clause_1.push(l))
    } else {
        Query::Clause(op, seq![l, r])
    }
}

/// Every filter has a non-empty phrase, a non-empty field name where it has
/// one, and an edit distance of one decimal digit.
pub open spec fn well_formed(q: Query) -> bool
    decreases q,
{
    match q {
        Query::Leaf(f) => {
            &&& f.phrase.len() > 0
            &&& (f.field_name matches Some(n) ==> n.len() > 0)
            &&& (f.levenshtein matches Some(d) ==> d <= 9)
        },
        Query::Clause(_, qs) => forall|i: int| 0 <= i < qs.len() ==> well_formed(#[trigger] qs[i]),
    }
}

proof fn lemma_models_push(qs: Seq<UserAST>, x: UserAST)
    ensures
        models(qs.push(x), qs.len() as int + 1) == models(qs, qs.len() as int).push(x.model()),
{
    lemma_models(qs.push(x), qs.len() as int + 1);
    lemma_models(qs, qs.len() as int);
    assert(models(qs.push(x), qs.len() as int + 1) =~= models(qs, qs.len() as int).push(x.model()));
}

/// Joins two trees with an operator as [`combined`] describes.
pub fn combine(left: UserAST, op: Operator, right: UserAST) -> (r: UserAST)
    ensures
        r.model() == combined(left.model(), op, right.model()),
{
    let left_same = match &left {
        UserAST::Clause(o, _) => *o == op,
        UserAST::Leaf(_) => false,
    };
    if left_same {
        match left {
            UserAST::Clause(o, qs) => {
                let mut qs = qs;
                proof {
                    lemma_models_push(qs@, right);
                }
                qs.push(right);
                return UserAST::Clause(o, qs);
            },
            UserAST::Leaf(f) => {
                return UserAST::Leaf(f);
            },
        }
    }
    let right_same = match &right {
        UserAST::Clause(o, _) => *o == op,
        UserAST::Leaf(_) => false,
    };
    if right_same {
        match right {
            UserAST::Clause(o, qs) => {
                let mut qs = qs;
                proof {
                    lemma_models_push(qs@, left);
                }
                qs.push(left);
                return UserAST::Clause(o, qs);
            },
            UserAST::Leaf(f) => {
                return UserAST::Leaf(f);
            },
        }
    }
    let mut qs: Vec<UserAST> = Vec::new();
    qs.push(left);
    qs.push(right);
    proof {
        lemma_models(qs@, 2);
        assert(models(qs@, 2) =~= seq![left.model(), right.model()]);
    }
    UserAST::Clause(op, qs)
}

/// The models of a list of trees: one per tree, in order.
pub proof fn lemma_models_all(qs: Seq<UserAST>)
    ensures
        models(qs, qs.len() as int).len() == qs.len(),
        forall|i: int| 0 <= i < qs.len() ==> #[trigger] models(qs, qs.len() as int)[i] == qs[i].model(),
{
    lemma_models(qs, qs.len() as int);
}

/// Joining well-formed trees gives a well-formed tree.
pub proof fn lemma_combined_well_formed(l: Query, op: Operator, r: Query)
    requires
        well_formed(l),
        well_formed(r),
    ensures
        well_formed(combined(l, op, r)),
{
    let c = combined(l, op, r);
    if let Query::Clause(_, qs) = c {
        assert forall|i: int| 0 <= i < qs.len() implies well_formed(#[trigger] qs[i]) by {
            if l matches Query::Clause(o, _) && o == op {
                let ls = l->Clause_1;
                if i < ls.len() {
                    assert(qs[i] == ls[i]);
                }
            } else if r matches Query::Clause(o, _) && o == op {
                let rs = r->Clause_1;
                if i < rs.len() {
                    assert(qs[i] == rs[i]);
                }
            }
        }
    }
}

} // verus!
