//! The term language: expressions over exact rational numerals, variables,
//! and the four arithmetic operators, in parenthesized prefix text form.
//!
//! An [`Expr`] is a flat node list in which every node's children are
//! earlier indices — the same shape the saturation engine uses, so
//! structurally different terms can share proven-equal subparts when the
//! nodes are handed over one by one. Parsing appends nodes in left-to-right
//! postorder; printing walks the tree from any node.

use vstd::prelude::*;

use crate::rational::NumeralError;
use crate::rational::NumeralScan;
use crate::rational::Rat;
use crate::rational::Rational;
use crate::rational::canon;
use crate::rational::numeral_den_val;
use crate::rational::numeral_rat;
use crate::rational::numeral_syntax;
use crate::rational::numeral_within;
use crate::rational::rat_wf;
use crate::rational::rational_text;

verus! {

/// One node: a numeral, a variable, or an operator over two earlier
/// class handles (node indices).
#[derive(Debug, Clone, PartialEq, Eq, Hash)]
pub enum TermNode {
    Num(Rational),
    Add(usize, usize),
    Sub(usize, usize),
    Mul(usize, usize),
    Div(usize, usize),
    Var(Vec<char>),
}

/// Ghost form of a node, over mathematical rationals and unbounded
/// indices.
pub ghost enum TNode {
    Num(Rat),
    Add(int, int),
    Sub(int, int),
    Mul(int, int),
    Div(int, int),
    Var(Seq<char>),
}

impl View for TermNode {
    type V = TNode;

    open spec fn view(&self) -> TNode {
        match self {
            TermNode::Num(q) => TNode::Num(q@),
            TermNode::Add(l, r) => TNode::Add(*l as int, *r as int),
            TermNode::Sub(l, r) => TNode::Sub(*l as int, *r as int),
            TermNode::Mul(l, r) => TNode::Mul(*l as int, *r as int),
            TermNode::Div(l, r) => TNode::Div(*l as int, *r as int),
            TermNode::Var(s) => TNode::Var(s@),
        }
    }
}

pub open spec fn is_space(c: char) -> bool {
    c == ' ' || c == '\n' || c == '\t' || c == '\r'
}

/// Characters that may stand inside a bare token.
pub open spec fn token_char(c: char) -> bool {
    !is_space(c) && c != '(' && c != ')'
}

/// A valid variable name: a nonempty token that is not numeral-shaped.
pub open spec fn var_ok(s: Seq<char>) -> bool {
    &&& s.len() > 0
    &&& (forall|i: int| 0 <= i < s.len() ==> token_char(#[trigger] s[i]))
    &&& !numeral_syntax(s)
}

/// Well-formedness of one node at position `i`: children strictly
/// earlier, numerals well formed, variable names valid.
pub open spec fn tnode_wf(n: TNode, i: int) -> bool {
    match n {
        TNode::Num(r) => rat_wf(r),
        TNode::Var(s) => var_ok(s),
        TNode::Add(l, r) => 0 <= l < i && 0 <= r < i,
        TNode::Sub(l, r) => 0 <= l < i && 0 <= r < i,
        TNode::Mul(l, r) => 0 <= l < i && 0 <= r < i,
        TNode::Div(l, r) => 0 <= l < i && 0 <= r < i,
    }
}

pub open spec fn expr_wf(e: Seq<TNode>) -> bool {
    &&& e.len() >= 1
    &&& (forall|i: int| 0 <= i < e.len() ==> tnode_wf(#[trigger] e[i], i))
}

/// The ghost view of a node list.
pub open spec fn nodes_view(v: Seq<TermNode>) -> Seq<TNode> {
    v.map_values(|n: TermNode| n@)
}

/// A parsed expression: a nonempty node list whose last node is the root.
#[derive(Debug, Clone, PartialEq, Eq)]
pub struct Expr {
    pub nodes: Vec<TermNode>,
}

impl View for Expr {
    type V = Seq<TNode>;

    open spec fn view(&self) -> Seq<TNode> {
        nodes_view(self.nodes@)
    }
}

impl Expr {
    pub open spec fn wf(self) -> bool {
        expr_wf(self@)
    }
}

// ------------------------------------------------------------------
// Printing.
// ------------------------------------------------------------------

pub open spec fn tnode_children_lt(n: TNode, i: int) -> bool {
    match n {
        TNode::Add(l, r) => 0 <= l < i && 0 <= r < i,
        TNode::Sub(l, r) => 0 <= l < i && 0 <= r < i,
        TNode::Mul(l, r) => 0 <= l < i && 0 <= r < i,
        TNode::Div(l, r) => 0 <= l < i && 0 <= r < i,
        _ => true,
    }
}

/// The printed text of the subtree rooted at node `i`.
pub open spec fn pn(e: Seq<TNode>, i: int) -> Seq<char>
    decreases i,
    when 0 <= i < e.len() && tnode_children_lt(e[i], i)
{
    match e[i] {
        TNode::Num(r) => rational_text(r),
        TNode::Var(s) => s,
        TNode::Add(l, r) => seq!['(', '+', ' '] + pn(e, l) + seq![' '] + pn(e, r) + seq![')'],
        TNode::Sub(l, r) => seq!['(', '-', ' '] + pn(e, l) + seq![' '] + pn(e, r) + seq![')'],
        TNode::Mul(l, r) => seq!['(', '*', ' '] + pn(e, l) + seq![' '] + pn(e, r) + seq![')'],
        TNode::Div(l, r) => seq!['(', '/', ' '] + pn(e, l) + seq![' '] + pn(e, r) + seq![')'],
    }
}

/// The printed text of a whole expression (its root is the last node).
pub open spec fn expr_text(e: Seq<TNode>) -> Seq<char> {
    pn(e, e.len() - 1)
}

fn print_node(nodes: &Vec<TermNode>, i: usize, out: &mut Vec<char>)
    requires
        i < nodes@.len(),
        expr_wf(nodes_view(nodes@)),
    ensures
        final(out)@ == old(out)@ + pn(nodes_view(nodes@), i as int),
    decreases i,
{
    let ghost e = nodes_view(nodes@);
    assert(e[i as int] == nodes@[i as int]@);
    assert(tnode_wf(e[i as int], i as int));
    match &nodes[i] {
        TermNode::Num(q) => {
            q.push_text(out);
        },
        TermNode::Var(name) => {
            let mut j: usize = 0;
            while j < name.len()
                invariant
                    j <= name@.len(),
                    out@ == old(out)@ + name@.subrange(0, j as int),
                decreases name@.len() - j,
            {
                out.push(name[j]);
                assert(out@ =~= old(out)@ + name@.subrange(0, j as int + 1));
                j += 1;
            }
            assert(name@.subrange(0, name@.len() as int) =~= name@);
        },
        TermNode::Add(l, r) => {
            out.push('(');
            out.push('+');
            out.push(' ');
            print_node(nodes, *l, out);
            out.push(' ');
            print_node(nodes, *r, out);
            out.push(')');
            assert(out@ =~= old(out)@ + pn(e, i as int));
        },
        TermNode::Sub(l, r) => {
            out.push('(');
            out.push('-');
            out.push(' ');
            print_node(nodes, *l, out);
            out.push(' ');
            print_node(nodes, *r, out);
            out.push(')');
            assert(out@ =~= old(out)@ + pn(e, i as int));
        },
        TermNode::Mul(l, r) => {
            out.push('(');
            out.push('*');
            out.push(' ');
            print_node(nodes, *l, out);
            out.push(' ');
            print_node(nodes, *r, out);
            out.push(')');
            assert(out@ =~= old(out)@ + pn(e, i as int));
        },
        TermNode::Div(l, r) => {
            out.push('(');
            out.push('/');
            out.push(' ');
            print_node(nodes, *l, out);
            out.push(' ');
            print_node(nodes, *r, out);
            out.push(')');
            assert(out@ =~= old(out)@ + pn(e, i as int));
        },
    }
}

impl Expr {
    /// The canonical text of this expression.
    pub fn to_chars(&self) -> (r: Vec<char>)
        requires
            self.wf(),
        ensures
            r@ == expr_text(self@),
    {
        let mut out: Vec<char> = Vec::new();
        let root = self.nodes.len() - 1;
        print_node(&self.nodes, root, &mut out);
        out
    }
}


// ------------------------------------------------------------------
// Parsing.
// ------------------------------------------------------------------

/// Why a text failed to parse: truncated input, a structural character out
/// of place (including an unknown operator or trailing text), or a
/// numeral-shaped token without a usable value.
#[derive(Debug, Clone, Copy, PartialEq, Eq)]
pub enum ParseError {
    UnexpectedEnd,
    UnexpectedChar,
    BadNumeral(NumeralError),
}

/// First non-whitespace position at or after `i`.
pub open spec fn skip_ws(s: Seq<char>, i: int) -> int
    decreases s.len() - i,
{
    if i < 0 || i >= s.len() {
        i
    } else if is_space(s[i]) {
        skip_ws(s, i + 1)
    } else {
        i
    }
}

/// End of the token starting at `i`.
pub open spec fn token_end(s: Seq<char>, i: int) -> int
    decreases s.len() - i,
{
    if i < 0 || i >= s.len() {
        i
    } else if token_char(s[i]) {
        token_end(s, i + 1)
    } else {
        i
    }
}

/// The ghost node a bare token stands for, or the error it raises.
pub open spec fn token_node(tok: Seq<char>) -> Result<TNode, ParseError> {
    if numeral_syntax(tok) {
        if numeral_den_val(tok) == 0 {
            Err(ParseError::BadNumeral(NumeralError::ZeroDenominator))
        } else if !numeral_within(tok) {
            Err(ParseError::BadNumeral(NumeralError::OutOfRange))
        } else {
            Ok(TNode::Num(canon(numeral_rat(tok).n, numeral_rat(tok).d)))
        }
    } else {
        Ok(TNode::Var(tok))
    }
}

pub open spec fn is_op_token(tok: Seq<char>) -> bool {
    tok == seq!['+'] || tok == seq!['-'] || tok == seq!['*'] || tok == seq!['/']
}

pub open spec fn op_tnode(tok: Seq<char>, l: int, r: int) -> TNode {
    if tok == seq!['+'] {
        TNode::Add(l, r)
    } else if tok == seq!['-'] {
        TNode::Sub(l, r)
    } else if tok == seq!['*'] {
        TNode::Mul(l, r)
    } else {
        TNode::Div(l, r)
    }
}

/// One parse step at position `i`: either a bare token or a parenthesized
/// operator application. On success it yields the next position and the
/// nodes appended, whose child handles start at `base`. The fuel only
/// serves termination; any fuel above the remaining length gives the same
/// answer.
pub open spec fn sp_node(s: Seq<char>, i: int, base: int, fuel: nat) -> Result<
    (int, Seq<TNode>),
    ParseError,
>
    decreases fuel,
{
    if fuel == 0 {
        Err(ParseError::UnexpectedEnd)
    } else {
        let j = skip_ws(s, i);
        if j >= s.len() {
            Err(ParseError::UnexpectedEnd)
        } else if s[j] == '(' {
            let k = skip_ws(s, j + 1);
            let ke = token_end(s, k);
            if ke == k {
                Err(ParseError::UnexpectedChar)
            } else if !is_op_token(s.subrange(k, ke)) {
                Err(ParseError::UnexpectedChar)
            } else {
                match sp_node(s, ke, base, (fuel - 1) as nat) {
                    Err(e) => Err(e),
                    Ok((i2, ns1)) => match sp_node(s, i2, base + ns1.len(), (fuel - 1) as nat) {
                        Err(e) => Err(e),
                        Ok((i3, ns2)) => {
                            let j3 = skip_ws(s, i3);
                            if j3 >= s.len() {
                                Err(ParseError::UnexpectedEnd)
                            } else if s[j3] != ')' {
                                Err(ParseError::UnexpectedChar)
                            } else {
                                let node = op_tnode(
                                    s.subrange(k, ke),
                                    base + ns1.len() - 1,
                                    base + ns1.len() + ns2.len() - 1,
                                );
                                Ok((j3 + 1, ns1 + ns2 + seq![node]))
                            }
                        },
                    },
                }
            }
        } else if s[j] == ')' {
            Err(ParseError::UnexpectedChar)
        } else {
            let e = token_end(s, j);
            match token_node(s.subrange(j, e)) {
                Err(err) => Err(err),
                Ok(n) => Ok((e, seq![n])),
            }
        }
    }
}

/// Parsing a whole text: one expression and nothing but whitespace after
/// it.
pub open spec fn sp_text(s: Seq<char>) -> Result<Seq<TNode>, ParseError> {
    match sp_node(s, 0, 0, (s.len() + 1) as nat) {
        Err(e) => Err(e),
        Ok((next, ns)) => {
            if skip_ws(s, next) >= s.len() {
                Ok(ns)
            } else {
                Err(ParseError::UnexpectedChar)
            }
        },
    }
}

pub(crate) proof fn lemma_skip_ws(s: Seq<char>, i: int)
    requires
        0 <= i <= s.len(),
    ensures
        i <= skip_ws(s, i) <= s.len(),
        forall|m: int| i <= m < skip_ws(s, i) ==> is_space(#[trigger] s[m]),
        skip_ws(s, i) < s.len() ==> !is_space(s[skip_ws(s, i)]),
    decreases s.len() - i,
{
    if i < s.len() && is_space(s[i]) {
        lemma_skip_ws(s, i + 1);
    }
}

proof fn lemma_token_end(s: Seq<char>, i: int)
    requires
        0 <= i <= s.len(),
    ensures
        i <= token_end(s, i) <= s.len(),
        forall|m: int| i <= m < token_end(s, i) ==> token_char(#[trigger] s[m]),
        token_end(s, i) < s.len() ==> !token_char(s[token_end(s, i)]),
    decreases s.len() - i,
{
    if i < s.len() && token_char(s[i]) {
        lemma_token_end(s, i + 1);
    }
}

/// On success a parse step consumes at least one character, stays within
/// the text, and appends at least one well-placed node.
proof fn lemma_sp_props(s: Seq<char>, i: int, base: int, fuel: nat)
    requires
        0 <= i <= s.len(),
        0 <= base,
    ensures
        sp_node(s, i, base, fuel) matches Ok((next, ns)) ==> {
            &&& i < next <= s.len()
            &&& ns.len() >= 1
            &&& forall|k: int| 0 <= k < ns.len() ==> tnode_wf(#[trigger] ns[k], base + k)
        },
    decreases fuel,
{
    if fuel == 0 {
    } else {
        let j = skip_ws(s, i);
        lemma_skip_ws(s, i);
        if j < s.len() && s[j] == '(' {
            let k = skip_ws(s, j + 1);
            lemma_skip_ws(s, j + 1);
            let ke = token_end(s, k);
            lemma_token_end(s, k);
            if ke != k && is_op_token(s.subrange(k, ke)) {
                lemma_sp_props(s, ke, base, (fuel - 1) as nat);
                match sp_node(s, ke, base, (fuel - 1) as nat) {
                    Ok((i2, ns1)) => {
                        lemma_sp_props(s, i2, base + ns1.len(), (fuel - 1) as nat);
                        match sp_node(s, i2, base + ns1.len(), (fuel - 1) as nat) {
                            Ok((i3, ns2)) => {
                                let j3 = skip_ws(s, i3);
                                lemma_skip_ws(s, i3);
                                if j3 < s.len() && s[j3] == ')' {
                                    let ns = ns1 + ns2 + seq![
                                        op_tnode(
                                            s.subrange(k, ke),
                                            base + ns1.len() - 1,
                                            base + ns1.len() + ns2.len() - 1,
                                        ),
                                    ];
                                    assert forall|m: int| 0 <= m < ns.len() implies tnode_wf(
                                        #[trigger] ns[m],
                                        base + m,
                                    ) by {
                                        if m < ns1.len() {
                                            assert(ns[m] == ns1[m]);
                                        } else if m < ns1.len() + ns2.len() {
                                            assert(ns[m] == ns2[m - ns1.len()]);
                                        } else {
                                            assert(ns[m] == op_tnode(
                                                s.subrange(k, ke),
                                                base + ns1.len() - 1,
                                                base + ns1.len() + ns2.len() - 1,
                                            ));
                                        }
                                    }
                                }
                            },
                            Err(_) => {},
                        }
                    },
                    Err(_) => {},
                }
            }
        } else if j < s.len() && s[j] != ')' {
            let e = token_end(s, j);
            lemma_token_end(s, j);
            assert(token_char(s[j]));
            assert(e > j);
            let tok = s.subrange(j, e);
            match token_node(tok) {
                Ok(n) => {
                    assert(tok.len() > 0);
                    if numeral_syntax(tok) {
                        crate::rational::lemma_canon(numeral_rat(tok).n, numeral_rat(tok).d);
                        assert(numeral_rat(tok).d != 0);
                    } else {
                        assert(var_ok(tok));
                    }
                },
                Err(_) => {},
            }
        }
    }
}

/// Any two sufficient fuels give the same parse.
proof fn lemma_sp_fuel(s: Seq<char>, i: int, base: int, f1: nat, f2: nat)
    requires
        0 <= i <= s.len(),
        0 <= base,
        f1 > s.len() - i,
        f2 > s.len() - i,
    ensures
        sp_node(s, i, base, f1) == sp_node(s, i, base, f2),
    decreases f1,
{
    let j = skip_ws(s, i);
    lemma_skip_ws(s, i);
    if j < s.len() && s[j] == '(' {
        let k = skip_ws(s, j + 1);
        lemma_skip_ws(s, j + 1);
        let ke = token_end(s, k);
        lemma_token_end(s, k);
        if ke != k && is_op_token(s.subrange(k, ke)) {
            lemma_sp_fuel(s, ke, base, (f1 - 1) as nat, (f2 - 1) as nat);
            lemma_sp_props(s, ke, base, (f1 - 1) as nat);
            match sp_node(s, ke, base, (f1 - 1) as nat) {
                Ok((i2, ns1)) => {
                    lemma_sp_fuel(s, i2, base + ns1.len(), (f1 - 1) as nat, (f2 - 1) as nat);
                },
                Err(_) => {},
            }
        }
    }
}


fn skip_ws_exec(s: &Vec<char>, i: usize) -> (r: usize)
    requires
        i <= s@.len(),
    ensures
        r as int == skip_ws(s@, i as int),
        i <= r <= s@.len(),
{
    proof {
        lemma_skip_ws(s@, i as int);
    }
    let mut j: usize = i;
    while j < s.len() && (s[j] == ' ' || s[j] == '\n' || s[j] == '\t' || s[j] == '\r')
        invariant
            i <= j <= s@.len(),
            skip_ws(s@, i as int) == skip_ws(s@, j as int),
            forall|m: int| i <= m < j ==> is_space(#[trigger] s@[m]),
        decreases s@.len() - j,
    {
        j += 1;
    }
    proof {
        lemma_skip_ws(s@, j as int);
    }
    j
}

fn token_end_exec(s: &Vec<char>, i: usize) -> (r: usize)
    requires
        i <= s@.len(),
    ensures
        r as int == token_end(s@, i as int),
        i <= r <= s@.len(),
{
    proof {
        lemma_token_end(s@, i as int);
    }
    let mut j: usize = i;
    while j < s.len() && !(s[j] == ' ' || s[j] == '\n' || s[j] == '\t' || s[j] == '\r' || s[j]
        == '(' || s[j] == ')')
        invariant
            i <= j <= s@.len(),
            token_end(s@, i as int) == token_end(s@, j as int),
            forall|m: int| i <= m < j ==> token_char(#[trigger] s@[m]),
        decreases s@.len() - j,
    {
        j += 1;
    }
    proof {
        lemma_token_end(s@, j as int);
    }
    j
}

pub(crate) fn copy_range(s: &Vec<char>, start: usize, end: usize) -> (r: Vec<char>)
    requires
        start <= end <= s@.len(),
    ensures
        r@ == s@.subrange(start as int, end as int),
{
    let mut out: Vec<char> = Vec::new();
    let mut j: usize = start;
    while j < end
        invariant
            start <= j <= end <= s@.len(),
            out@ == s@.subrange(start as int, j as int),
        decreases end - j,
    {
        out.push(s[j]);
        assert(out@ =~= s@.subrange(start as int, j as int + 1));
        j += 1;
    }
    out
}

/// One parse step; appends the nodes of the parsed subexpression to
/// `out` on success, exactly as [`sp_node`] describes.
fn parse_node_exec(s: &Vec<char>, pos: usize, out: &mut Vec<TermNode>) -> (r: Result<
    usize,
    ParseError,
>)
    requires
        pos <= s@.len(),
    ensures
        ({
            let res = sp_node(s@, pos as int, old(out)@.len() as int, (s@.len() + 1) as nat);
            match r {
                Ok(next) => {
                    &&& res matches Ok((n2, ns)) && n2 == next as int && nodes_view(final(out)@)
                        == nodes_view(old(out)@) + ns
                    &&& next <= s@.len()
                },
                Err(p) => res == Err::<(int, Seq<TNode>), ParseError>(p),
            }
        }),
    decreases s@.len() - pos,
{
    let ghost base = out@.len() as int;
    let ghost fuel = (s@.len() + 1) as nat;
    proof {
        lemma_skip_ws(s@, pos as int);
    }
    let j = skip_ws_exec(s, pos);
    if j == s.len() {
        return Err(ParseError::UnexpectedEnd);
    }
    let c = s[j];
    if c == '(' {
        let k = skip_ws_exec(s, j + 1);
        let ke = token_end_exec(s, k);
        proof {
            lemma_token_end(s@, k as int);
        }
        if ke == k {
            return Err(ParseError::UnexpectedChar);
        }
        let ghost optok = s@.subrange(k as int, ke as int);
        let opc = s[k];
        proof {
            if ke == k + 1 {
                assert(optok =~= seq![opc]);
                if opc == '+' {
                    assert(optok =~= seq!['+']);
                }
                if opc == '-' {
                    assert(optok =~= seq!['-']);
                }
                if opc == '*' {
                    assert(optok =~= seq!['*']);
                }
                if opc == '/' {
                    assert(optok =~= seq!['/']);
                }
            }
        }
        if !(ke == k + 1 && (opc == '+' || opc == '-' || opc == '*' || opc == '/')) {
            proof {
                if is_op_token(optok) {
                    assert(optok.len() == 1);
                    assert(ke == k + 1);
                    assert(optok[0] == opc);
                    if optok == seq!['+'] {
                        assert(optok[0] == '+');
                    }
                    if optok == seq!['-'] {
                        assert(optok[0] == '-');
                    }
                    if optok == seq!['*'] {
                        assert(optok[0] == '*');
                    }
                    if optok == seq!['/'] {
                        assert(optok[0] == '/');
                    }
                }
            }
            return Err(ParseError::UnexpectedChar);
        }
        assert(is_op_token(optok));
        let r1 = parse_node_exec(s, ke, out);
        proof {
            lemma_sp_fuel(s@, ke as int, base, fuel, (fuel - 1) as nat);
            lemma_sp_props(s@, ke as int, base, (fuel - 1) as nat);
        }
        match r1 {
            Err(e) => Err(e),
            Ok(i2) => {
                let ghost res1 = sp_node(s@, ke as int, base, (fuel - 1) as nat);
                proof {
                    assert(res1 == sp_node(s@, ke as int, base, fuel));
                    assert(res1 is Ok);
                }
                let ghost ns1 = res1->Ok_0.1;
                // The left subtree's root is the last node appended so far.
                let len1 = out.len();
                proof {
                    assert(nodes_view(out@).len() == out@.len());
                    assert(nodes_view(old(out)@).len() == old(out)@.len());
                    assert(nodes_view(out@) == nodes_view(old(out)@) + ns1);
                }
                assert(len1 as int == base + ns1.len());
                let ghost mid = out@;
                let r2 = parse_node_exec(s, i2, out);
                proof {
                    lemma_sp_fuel(s@, i2 as int, mid.len() as int, fuel, (fuel - 1) as nat);
                    lemma_sp_props(s@, i2 as int, mid.len() as int, (fuel - 1) as nat);
                }
                match r2 {
                    Err(e) => Err(e),
                    Ok(i3) => {
                        let ghost res2 = sp_node(
                            s@,
                            i2 as int,
                            base + ns1.len(),
                            (fuel - 1) as nat,
                        );
                        proof {
                            assert(res2 == sp_node(s@, i2 as int, mid.len() as int, fuel));
                            assert(res2 is Ok);
                        }
                        let ghost ns2 = res2->Ok_0.1;
                        let j3 = skip_ws_exec(s, i3);
                        if j3 == s.len() {
                            return Err(ParseError::UnexpectedEnd);
                        }
                        if s[j3] != ')' {
                            return Err(ParseError::UnexpectedChar);
                        }
                        let len2 = out.len();
                        proof {
                            assert(nodes_view(out@).len() == out@.len());
                            assert(nodes_view(mid).len() == mid.len());
                            assert(nodes_view(out@) == nodes_view(mid) + ns2);
                        }
                        assert(len2 as int == base + ns1.len() + ns2.len());
                        let li = len1 - 1;
                        let ri = len2 - 1;
                        let node = if opc == '+' {
                            TermNode::Add(li, ri)
                        } else if opc == '-' {
                            TermNode::Sub(li, ri)
                        } else if opc == '*' {
                            TermNode::Mul(li, ri)
                        } else {
                            TermNode::Div(li, ri)
                        };
                        let ghost pre = out@;
                        out.push(node);
                        proof {
                            assert(out@ == pre.push(node));
                            assert(nodes_view(pre.push(node)) =~= nodes_view(pre) + seq![node@]);
                            assert(optok[0] == opc);
                            if optok == seq!['+'] {
                                assert(optok[0] == '+');
                            }
                            if optok == seq!['-'] {
                                assert(optok[0] == '-');
                            }
                            if optok == seq!['*'] {
                                assert(optok[0] == '*');
                            }
                            if optok == seq!['/'] {
                                assert(optok[0] == '/');
                            }
                            assert(ns1.len() >= 1 && ns2.len() >= 1);
                            assert(li as int == base + ns1.len() - 1);
                            assert(ri as int == base + ns1.len() + ns2.len() - 1);
                            assert(node@ == op_tnode(
                                optok,
                                base + ns1.len() - 1,
                                base + ns1.len() + ns2.len() - 1,
                            ));
                            assert(nodes_view(out@) =~= nodes_view(old(out)@) + (ns1 + ns2
                                + seq![
                                op_tnode(
                                    optok,
                                    base + ns1.len() - 1,
                                    base + ns1.len() + ns2.len() - 1,
                                ),
                            ]));
                        }
                        Ok(j3 + 1)
                    },
                }
            },
        }
    } else if c == ')' {
        Err(ParseError::UnexpectedChar)
    } else {
        let e = token_end_exec(s, j);
        proof {
            lemma_token_end(s@, j as int);
            assert(token_char(s@[j as int]));
        }
        let tok = copy_range(s, j, e);
        match Rational::scan_numeral(&tok) {
            NumeralScan::NotNumeral => {
                out.push(TermNode::Var(tok));
                assert(nodes_view(out@) =~= nodes_view(old(out)@) + seq![
                    TNode::Var(s@.subrange(j as int, e as int)),
                ]);
                Ok(e)
            },
            NumeralScan::Value(q) => {
                out.push(TermNode::Num(q));
                assert(nodes_view(out@) =~= nodes_view(old(out)@) + seq![TNode::Num(q@)]);
                Ok(e)
            },
            NumeralScan::Bad(err) => Err(ParseError::BadNumeral(err)),
        }
    }
}


/// Relies on `String`'s `FromIterator<char>` implementation: collecting
/// characters yields the string of exactly those characters in order.
#[verifier::external_body]
pub(crate) fn chars_to_string(v: Vec<char>) -> (r: String)
    ensures
        r@ == v@,
{
    v.into_iter().collect()
}

pub(crate) fn str_to_chars(s: &str) -> (r: Vec<char>)
    ensures
        r@ == s@,
{
    let n = s.unicode_len();
    let mut out: Vec<char> = Vec::new();
    let mut i: usize = 0;
    while i < n
        invariant
            i <= n,
            n == s@.len(),
            out@ == s@.subrange(0, i as int),
        decreases n - i,
    {
        out.push(s.get_char(i));
        assert(out@ =~= s@.subrange(0, i as int + 1));
        i += 1;
    }
    assert(s@.subrange(0, s@.len() as int) =~= s@);
    out
}

impl Expr {
    /// The canonical text of this expression, as a string.
    pub fn to_text(&self) -> (r: String)
        requires
            self.wf(),
        ensures
            r@ == expr_text(self@),
    {
        chars_to_string(self.to_chars())
    }
}

/// Parses a whole character list as one expression.
pub fn parse_chars(s: &Vec<char>) -> (r: Result<Expr, ParseError>)
    ensures
        r matches Ok(e) ==> sp_text(s@) == Ok::<Seq<TNode>, ParseError>(e@) && e.wf(),
        r matches Err(p) ==> sp_text(s@) == Err::<Seq<TNode>, ParseError>(p),
{
    let mut nodes: Vec<TermNode> = Vec::new();
    let ghost fuel = (s@.len() + 1) as nat;
    let r0 = parse_node_exec(s, 0, &mut nodes);
    proof {
        lemma_sp_props(s@, 0, 0, fuel);
    }
    match r0 {
        Err(p) => Err(p),
        Ok(next) => {
            let j = skip_ws_exec(s, next);
            if j < s.len() {
                Err(ParseError::UnexpectedChar)
            } else {
                let e = Expr { nodes };
                assert(e@ =~= nodes_view(Seq::<TermNode>::empty()) + e@);
                assert(expr_wf(e@));
                Ok(e)
            }
        },
    }
}

/// Parses a whole text as one expression.
pub fn parse_text(s: &str) -> (r: Result<Expr, ParseError>)
    ensures
        r matches Ok(e) ==> sp_text(s@) == Ok::<Seq<TNode>, ParseError>(e@) && e.wf(),
        r matches Err(p) ==> sp_text(s@) == Err::<Seq<TNode>, ParseError>(p),
{
    let v = str_to_chars(s);
    parse_chars(&v)
}


// ------------------------------------------------------------------
// The postorder layout of parse output, and the print/parse round trip.
// ------------------------------------------------------------------

/// The two child handles of an operator node, if any.
pub open spec fn node_children(n: TNode) -> Option<(int, int)> {
    match n {
        TNode::Add(l, r) => Some((l, r)),
        TNode::Sub(l, r) => Some((l, r)),
        TNode::Mul(l, r) => Some((l, r)),
        TNode::Div(l, r) => Some((l, r)),
        _ => None,
    }
}

pub open spec fn st_abs_ok(ns: Seq<TNode>, base: int, j: int) -> bool {
    &&& 0 <= j - base < ns.len()
    &&& (match node_children(ns[j - base]) {
        Some(c) => base <= c.0 < j,
        None => true,
    })
}

/// Start of the subtree rooted at absolute position `j` of a chunk of
/// nodes that begins at absolute position `base`; out-of-shape positions
/// are their own start.
pub open spec fn st_abs(ns: Seq<TNode>, base: int, j: int) -> int
    decreases j - base,
{
    if !st_abs_ok(ns, base, j) {
        j
    } else {
        match node_children(ns[j - base]) {
            Some(c) => st_abs(ns, base, c.0),
            None => j,
        }
    }
}

/// One node's place in the left-to-right postorder layout: an operator
/// node directly follows its right subtree, which directly follows its
/// left subtree.
pub open spec fn layout_node(ns: Seq<TNode>, base: int, k: int) -> bool {
    match node_children(ns[k]) {
        Some(c) => base <= c.0 && c.1 == base + k - 1 && c.0 == st_abs(ns, base, c.1) - 1,
        None => true,
    }
}

/// The layout that parsing produces: every node is well placed and the
/// chunk is exactly the subtree of its last node.
pub open spec fn layout_chunk(ns: Seq<TNode>, base: int) -> bool {
    &&& (forall|k: int| 0 <= k < ns.len() ==> layout_node(ns, base, k))
    &&& st_abs(ns, base, base + ns.len() - 1) == base
}

/// Subtree starts stay within the chunk.
proof fn lemma_st_abs_bounds(ns: Seq<TNode>, base: int, j: int)
    requires
        0 <= j - base < ns.len(),
        forall|k: int| 0 <= k < ns.len() ==> layout_node(ns, base, k),
        forall|k: int| 0 <= k < ns.len() ==> tnode_wf(#[trigger] ns[k], base + k),
    ensures
        base <= st_abs(ns, base, j) <= j,
    decreases j - base,
{
    assert(layout_node(ns, base, j - base));
    assert(tnode_wf(ns[j - base], j));
    assert(st_abs_ok(ns, base, j));
    match node_children(ns[j - base]) {
        Some(c) => {
            lemma_st_abs_bounds(ns, base, c.0);
            assert(st_abs(ns, base, j) == st_abs(ns, base, c.0));
        },
        None => {
            assert(st_abs(ns, base, j) == j);
        },
    }
}

/// A subtree start computed in a larger chunk agrees with the one
/// computed in the sub-chunk it came from.
proof fn lemma_st_abs_frame(big: Seq<TNode>, small: Seq<TNode>, base: int, off: int, j: int)
    requires
        0 <= off - base,
        off - base + small.len() <= big.len(),
        forall|k: int| 0 <= k < small.len() ==> big[off - base + k] == small[k],
        0 <= j - off < small.len(),
        forall|k: int| 0 <= k < small.len() ==> layout_node(small, off, k),
        forall|k: int| 0 <= k < small.len() ==> tnode_wf(#[trigger] small[k], off + k),
    ensures
        st_abs(big, base, j) == st_abs(small, off, j),
    decreases j - off,
{
    assert(layout_node(small, off, j - off));
    assert(tnode_wf(small[j - off], j));
    assert(big[j - base] == small[j - off]);
    assert(st_abs_ok(small, off, j));
    assert(st_abs_ok(big, base, j));
    match node_children(small[j - off]) {
        Some(c) => {
            lemma_st_abs_bounds(small, off, c.0);
            lemma_st_abs_frame(big, small, base, off, c.0);
            assert(st_abs(small, off, j) == st_abs(small, off, c.0));
            assert(st_abs(big, base, j) == st_abs(big, base, c.0));
        },
        None => {
            assert(st_abs(small, off, j) == j);
            assert(st_abs(big, base, j) == j);
        },
    }
}


/// Everything a successful parse step appends is in postorder layout.
proof fn lemma_sp_layout(s: Seq<char>, i: int, base: int, fuel: nat)
    requires
        0 <= i <= s.len(),
        0 <= base,
    ensures
        sp_node(s, i, base, fuel) matches Ok((next, ns)) ==> layout_chunk(ns, base),
    decreases fuel,
{
    if fuel == 0 {
        return;
    }
    let j = skip_ws(s, i);
    lemma_skip_ws(s, i);
    if j < s.len() && s[j] == '(' {
        let k = skip_ws(s, j + 1);
        lemma_skip_ws(s, j + 1);
        let ke = token_end(s, k);
        lemma_token_end(s, k);
        if ke != k && is_op_token(s.subrange(k, ke)) {
            lemma_sp_props(s, ke, base, (fuel - 1) as nat);
            lemma_sp_layout(s, ke, base, (fuel - 1) as nat);
            match sp_node(s, ke, base, (fuel - 1) as nat) {
                Ok((i2, ns1)) => {
                    let off2 = base + ns1.len() as int;
                    lemma_sp_props(s, i2, off2, (fuel - 1) as nat);
                    lemma_sp_layout(s, i2, off2, (fuel - 1) as nat);
                    match sp_node(s, i2, off2, (fuel - 1) as nat) {
                        Ok((i3, ns2)) => {
                            let j3 = skip_ws(s, i3);
                            lemma_skip_ws(s, i3);
                            if j3 < s.len() && s[j3] == ')' {
                                let lstar = base + ns1.len() - 1;
                                let rstar = base + ns1.len() + ns2.len() - 1;
                                let node = op_tnode(s.subrange(k, ke), lstar, rstar);
                                let ns = ns1 + ns2 + seq![node];
                                assert(forall|m: int|
                                    0 <= m < ns1.len() ==> ns[m] == ns1[m]);
                                assert(forall|m: int|
                                    0 <= m < ns2.len() ==> ns[ns1.len() + m] == ns2[m]);
                                assert(ns[ns.len() - 1] == node);
                                assert(node_children(node) == Some((lstar, rstar)));
                                // Inner chunks keep their layout inside
                                // the combined chunk.
                                assert forall|m: int| 0 <= m < ns.len() implies layout_node(
                                    ns,
                                    base,
                                    m,
                                ) by {
                                    if m < ns1.len() {
                                        assert(layout_node(ns1, base, m));
                                        match node_children(ns1[m]) {
                                            Some(c) => {
                                                if m == 0 {
                                                    assert(st_abs(ns1, base, base - 1) == base
                                                        - 1);
                                                    assert(false);
                                                }
                                                lemma_st_abs_frame(ns, ns1, base, base, c.1);
                                            },
                                            None => {},
                                        }
                                    } else if m < ns1.len() + ns2.len() {
                                        let m2 = m - ns1.len();
                                        assert(layout_node(ns2, off2, m2));
                                        match node_children(ns2[m2]) {
                                            Some(c) => {
                                                if m2 == 0 {
                                                    assert(st_abs(ns2, off2, off2 - 1) == off2
                                                        - 1);
                                                    assert(false);
                                                }
                                                lemma_st_abs_frame(ns, ns2, base, off2, c.1);
                                            },
                                            None => {},
                                        }
                                    } else {
                                        lemma_st_abs_frame(ns, ns2, base, off2, rstar);
                                        assert(st_abs(ns2, off2, rstar) == off2);
                                    }
                                }
                                // The whole chunk is the last node's
                                // subtree.
                                assert(st_abs_ok(ns, base, base + ns.len() - 1));
                                lemma_st_abs_frame(ns, ns1, base, base, lstar);
                                assert(st_abs(ns1, base, lstar) == base);
                                assert(st_abs(ns, base, base + ns.len() - 1) == base);
                            }
                        },
                        Err(_) => {},
                    }
                },
                Err(_) => {},
            }
        }
    } else if j < s.len() && s[j] != ')' {
        let e = token_end(s, j);
        lemma_token_end(s, j);
        let tok = s.subrange(j, e);
        match token_node(tok) {
            Ok(n) => {
                let ns = seq![n];
                assert(node_children(n) is None);
                assert(st_abs(ns, base, base) == base);
            },
            Err(_) => {},
        }
    }
}


proof fn lemma_token_end_exact(s: Seq<char>, i: int, n: int)
    requires
        0 <= i,
        0 <= n,
        i + n <= s.len(),
        forall|m: int| i <= m < i + n ==> token_char(#[trigger] s[m]),
        i + n == s.len() || !token_char(s[i + n]),
    ensures
        token_end(s, i) == i + n,
    decreases n,
{
    if n > 0 {
        lemma_token_end_exact(s, i + 1, n - 1);
    }
}

/// Every character of a well-formed rational's text may stand in a token.
proof fn lemma_rational_text_token(q: Rat)
    requires
        rat_wf(q),
    ensures
        rational_text(q).len() >= 1,
        forall|m: int|
            0 <= m < rational_text(q).len() ==> token_char(#[trigger] rational_text(q)[m]),
        !is_space(rational_text(q)[0]),
        rational_text(q)[0] != '(' && rational_text(q)[0] != ')',
    decreases q.d,
{
    crate::rational::lemma_dec_rep(crate::rational::abs_i(q.n));
    crate::rational::lemma_dec_rep(q.d as nat);
    let t = rational_text(q);
    assert forall|m: int| 0 <= m < t.len() implies token_char(#[trigger] t[m]) by {
        let nd = crate::rational::dec_rep(crate::rational::abs_i(q.n));
        let dd = crate::rational::dec_rep(q.d as nat);
        if q.n < 0 {
            if m == 0 {
                assert(t[m] == '-');
            } else if m <= nd.len() {
                assert(t[m] == nd[m - 1]);
                assert(crate::rational::is_digit(t[m]));
            } else if q.d != 1 {
                if m == nd.len() + 1 {
                    assert(t[m] == '/');
                } else {
                    assert(t[m] == dd[m - nd.len() - 2]);
                    assert(crate::rational::is_digit(t[m]));
                }
            }
        } else {
            if m < nd.len() {
                assert(t[m] == nd[m]);
                assert(crate::rational::is_digit(t[m]));
            } else if q.d != 1 {
                if m == nd.len() {
                    assert(t[m] == '/');
                } else {
                    assert(t[m] == dd[m - nd.len() - 1]);
                    assert(crate::rational::is_digit(t[m]));
                }
            }
        }
    }
}

/// The printed form of any node is nonempty, starts outside whitespace
/// and parentheses (except that operators start with an opening one), and
/// for leaves is all token characters.
proof fn lemma_pn_head(e: Seq<TNode>, i: int)
    requires
        0 <= i < e.len(),
        tnode_wf(e[i], i),
    ensures
        pn(e, i).len() >= 1,
        !is_space(pn(e, i)[0]),
        pn(e, i)[0] != ')',
        node_children(e[i]) is Some ==> pn(e, i)[0] == '(',
        node_children(e[i]) is None ==> pn(e, i)[0] != '(',
    decreases i,
{
    match e[i] {
        TNode::Num(q) => {
            lemma_rational_text_token(q);
        },
        TNode::Var(name) => {
            assert(token_char(name[0]));
        },
        _ => {},
    }
}

/// A parse step only looks at the text from the first non-whitespace
/// character on, so positions with the same skip agree.
proof fn lemma_sp_same_skip(s: Seq<char>, p1: int, p2: int, base: int, fuel: nat)
    requires
        skip_ws(s, p1) == skip_ws(s, p2),
    ensures
        sp_node(s, p1, base, fuel) == sp_node(s, p2, base, fuel),
{
    if fuel != 0 {
        assert(sp_node(s, p1, base, fuel) == sp_node(s, p2, base, fuel));
    }
}


/// Parsing the printed form of a subtree, wherever it stands in a larger
/// text, reproduces exactly that subtree's nodes at their original
/// positions.
#[verifier::rlimit(100)]
proof fn lemma_pn_parses(e: Seq<TNode>, i: int, s: Seq<char>, pos: int, fuel: nat)
    requires
        forall|k: int| 0 <= k < e.len() ==> tnode_wf(#[trigger] e[k], k),
        forall|k: int| 0 <= k < e.len() ==> layout_node(e, 0, k),
        0 <= i < e.len(),
        0 <= pos,
        pos + pn(e, i).len() <= s.len(),
        s.subrange(pos, pos + pn(e, i).len()) == pn(e, i),
        pos + pn(e, i).len() == s.len() || !token_char(s[pos + pn(e, i).len()]),
        fuel > s.len() - pos,
    ensures
        sp_node(s, pos, st_abs(e, 0, i), fuel) == Ok::<(int, Seq<TNode>), ParseError>(
            (pos + pn(e, i).len(), e.subrange(st_abs(e, 0, i), i + 1)),
        ),
    decreases i,
{
    let base = st_abs(e, 0, i);
    let p = pn(e, i);
    lemma_pn_head(e, i);
    assert forall|m: int| 0 <= m < p.len() implies s[pos + m] == p[m] by {
        assert(p[m] == s.subrange(pos, pos + p.len())[m]);
    }
    assert(tnode_wf(e[i], i));
    assert(layout_node(e, 0, i));
    lemma_st_abs_bounds(e, 0, i);
    match node_children(e[i]) {
        None => {
            // A bare token: the whole printed text is one token.
            assert(st_abs_ok(e, 0, i));
            assert(base == i);
            assert(!is_space(s[pos]));
            assert(skip_ws(s, pos) == pos);
            assert(s[pos] != '(' && s[pos] != ')');
            match e[i] {
                TNode::Num(q) => {
                    lemma_rational_text_token(q);
                    assert forall|m: int| pos <= m < pos + p.len() implies token_char(
                        #[trigger] s[m],
                    ) by {
                        assert(s[m] == p[m - pos]);
                    }
                    lemma_token_end_exact(s, pos, p.len() as int);
                    assert(s.subrange(pos, pos + p.len()) == p);
                    crate::rational::lemma_text_numeral(q);
                    assert(token_node(p) == Ok::<TNode, ParseError>(TNode::Num(q)));
                    assert(seq![TNode::Num(q)] =~= e.subrange(i, i + 1));
                },
                TNode::Var(name) => {
                    assert(p == name);
                    assert forall|m: int| pos <= m < pos + p.len() implies token_char(
                        #[trigger] s[m],
                    ) by {
                        assert(s[m] == p[m - pos]);
                    }
                    lemma_token_end_exact(s, pos, p.len() as int);
                    assert(!numeral_syntax(p));
                    assert(token_node(p) == Ok::<TNode, ParseError>(TNode::Var(name)));
                    assert(seq![TNode::Var(name)] =~= e.subrange(i, i + 1));
                },
                _ => {
                    assert(false);
                },
            }
        },
        Some(c) => {
            let l = c.0;
            let r = c.1;
            assert(0 <= l < i && 0 <= r < i);
            assert(r == i - 1);
            assert(l == st_abs(e, 0, r) - 1);
            assert(st_abs_ok(e, 0, i));
            assert(base == st_abs(e, 0, l));
            lemma_st_abs_bounds(e, 0, l);
            lemma_st_abs_bounds(e, 0, r);
            let a = pn(e, l);
            let b = pn(e, r);
            let al = a.len() as int;
            let bl = b.len() as int;
            let ghost o: char = match e[i] {
                TNode::Add(_, _) => '+',
                TNode::Sub(_, _) => '-',
                TNode::Mul(_, _) => '*',
                TNode::Div(_, _) => '/',
                _ => ' ',
            };
            assert(p == seq!['(', o, ' '] + a + seq![' '] + b + seq![')']);
            assert(p.len() == al + bl + 5);
            lemma_pn_head(e, l);
            lemma_pn_head(e, r);
            // Pin each region of the printed text.
            assert(p[0] == '(' && p[1] == o && p[2] == ' ');
            assert(s[pos + 0] == p[0] && s[pos + 1] == p[1] && s[pos + 2] == p[2]);
            assert(s[pos] == '(');
            assert(s[pos + 1] == o);
            assert(s[pos + 2] == ' ');
            assert forall|m: int| 0 <= m < al implies s[pos + 3 + m] == a[m] by {
                assert(p[3 + m] == a[m]);
            }
            assert(s[pos + 3 + al] == ' ') by {
                assert(p[3 + al] == ' ');
            }
            assert forall|m: int| 0 <= m < bl implies s[pos + 4 + al + m] == b[m] by {
                assert(p[4 + al + m] == b[m]);
            }
            assert(s[pos + 4 + al + bl] == ')') by {
                assert(p[4 + al + bl] == ')');
            }
            // The parse now proceeds step by step.
            assert(!is_space(s[pos]));
            assert(skip_ws(s, pos) == pos);
            assert(!is_space(s[pos + 1]));
            assert(skip_ws(s, pos + 1) == pos + 1);
            assert(token_char(s[pos + 1]));
            assert(!token_char(s[pos + 2]));
            lemma_token_end_exact(s, pos + 1, 1);
            assert(token_end(s, pos + 1) == pos + 2);
            let optok = s.subrange(pos + 1, pos + 2);
            assert(optok =~= seq![o]);
            if o == '+' {
                assert(is_op_token(optok));
            }
            if o == '-' {
                assert(is_op_token(optok));
            }
            if o == '*' {
                assert(is_op_token(optok));
            }
            if o == '/' {
                assert(is_op_token(optok));
            }
            // Left subtree.
            assert(s.subrange(pos + 3, pos + 3 + al) =~= a);
            lemma_pn_parses(e, l, s, pos + 3, (fuel - 1) as nat);
            assert(!is_space(s[pos + 3])) by {
                assert(s[pos + 3] == a[0]);
            }
            assert(skip_ws(s, pos + 3) == pos + 3);
            assert(is_space(s[pos + 2]));
            assert(skip_ws(s, pos + 2) == skip_ws(s, pos + 3));
            lemma_sp_same_skip(s, pos + 2, pos + 3, base, (fuel - 1) as nat);
            let ns1 = e.subrange(base, l + 1);
            assert(sp_node(s, pos + 2, base, (fuel - 1) as nat) == Ok::<
                (int, Seq<TNode>),
                ParseError,
            >((pos + 3 + al, ns1)));
            // Right subtree.
            assert(base + (l + 1 - base) == l + 1);
            assert(st_abs(e, 0, r) == l + 1);
            assert(s.subrange(pos + 4 + al, pos + 4 + al + bl) =~= b);
            lemma_pn_parses(e, r, s, pos + 4 + al, (fuel - 1) as nat);
            assert(!is_space(s[pos + 4 + al])) by {
                assert(s[pos + 4 + al] == b[0]);
            }
            assert(skip_ws(s, pos + 4 + al) == pos + 4 + al);
            assert(is_space(s[pos + 3 + al]));
            assert(skip_ws(s, pos + 3 + al) == skip_ws(s, pos + 4 + al));
            lemma_sp_same_skip(s, pos + 3 + al, pos + 4 + al, l + 1, (fuel - 1) as nat);
            let ns2 = e.subrange(l + 1, i);
            assert(sp_node(s, pos + 3 + al, l + 1, (fuel - 1) as nat) == Ok::<
                (int, Seq<TNode>),
                ParseError,
            >((pos + 4 + al + bl, ns2)));
            // Closing parenthesis and the operator node.
            let i3 = pos + 4 + al + bl;
            assert(!is_space(s[i3]));
            assert(skip_ws(s, i3) == i3);
            assert(i3 < s.len());
            assert(s[i3] == ')');
            let lstar = base + (l + 1 - base) - 1;
            let rstar = base + (l + 1 - base) + (i - l - 1) - 1;
            assert(lstar == l);
            assert(rstar == i - 1);
            let node = op_tnode(optok, lstar, rstar);
            if o == '+' {
                assert(node == TNode::Add(l, i - 1));
            }
            if o == '-' {
                assert(optok[0] == '-');
                if optok == seq!['+'] {
                    assert(optok[0] == '+');
                }
                assert(node == TNode::Sub(l, i - 1));
            }
            if o == '*' {
                assert(optok[0] == '*');
                if optok == seq!['+'] {
                    assert(optok[0] == '+');
                }
                if optok == seq!['-'] {
                    assert(optok[0] == '-');
                }
                assert(node == TNode::Mul(l, i - 1));
            }
            if o == '/' {
                assert(optok[0] == '/');
                if optok == seq!['+'] {
                    assert(optok[0] == '+');
                }
                if optok == seq!['-'] {
                    assert(optok[0] == '-');
                }
                if optok == seq!['*'] {
                    assert(optok[0] == '*');
                }
                assert(node == TNode::Div(l, i - 1));
            }
            assert(node == e[i]);
            assert(ns1 + ns2 + seq![node] =~= e.subrange(base, i + 1));
            assert(sp_node(s, pos, base, fuel) == Ok::<(int, Seq<TNode>), ParseError>(
                (i3 + 1, e.subrange(base, i + 1)),
            ));
            assert(i3 + 1 == pos + p.len());
        },
    }
}


/// Round trip: parsing the printed form of a parsed expression
/// reproduces the original parsed structure exactly — for any text that
/// parses, printing the result and parsing again yields the same node
/// list.
pub proof fn lemma_parse_print_roundtrip(s: Seq<char>, e: Seq<TNode>)
    requires
        sp_text(s) == Ok::<Seq<TNode>, ParseError>(e),
    ensures
        expr_wf(e),
        sp_text(expr_text(e)) == Ok::<Seq<TNode>, ParseError>(e),
{
    let fuel = (s.len() + 1) as nat;
    lemma_sp_props(s, 0, 0, fuel);
    lemma_sp_layout(s, 0, 0, fuel);
    let root = e.len() as int - 1;
    assert(st_abs(e, 0, root) == 0);
    let t = expr_text(e);
    lemma_pn_head(e, root);
    assert(t.subrange(0, t.len() as int) =~= t);
    lemma_pn_parses(e, root, t, 0, (t.len() + 1) as nat);
    assert(e.subrange(0, root + 1) =~= e);
    assert(sp_node(t, 0, 0, (t.len() + 1) as nat) == Ok::<(int, Seq<TNode>), ParseError>(
        (t.len() as int, e),
    ));
    assert(skip_ws(t, t.len() as int) == t.len());
}

} // verus!
