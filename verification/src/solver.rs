//! The expression tree: building it from a postfix token sequence, and the
//! structural half of the step-by-step reduction machinery.
use vstd::prelude::*;

use crate::tokens::lemma_token_views_remove_front;
use crate::tokens::token_views;
use crate::tokens::Token;
use crate::tokens::TokenModel;
use crate::EvalError;

verus! {

/// A node of the expression tree: a token together with its ordered
/// children. Leaves hold number tokens and have no children; internal nodes
/// hold an operator and exactly two children, the left operand first.
#[derive(Debug, PartialEq)]
pub struct ExpressionTree {
    pub token: Token,
    pub children: Vec<ExpressionTree>,
}

/// A tree as the specifications see it.
pub ghost struct TreeModel {
    pub token: TokenModel,
    pub children: Seq<TreeModel>,
}

/// The model of a tree node.
pub open spec fn tree_model(t: ExpressionTree) -> TreeModel
    decreases t,
{
    TreeModel { token: t.token@, children: children_models(t.children@) }
}

/// The models of a sequence of sibling nodes.
pub open spec fn children_models(cs: Seq<ExpressionTree>) -> Seq<TreeModel>
    decreases cs,
{
    if cs.len() == 0 {
        Seq::empty()
    } else {
        children_models(cs.drop_last()).push(tree_model(cs.last()))
    }
}

impl View for ExpressionTree {
    type V = TreeModel;

    open spec fn view(&self) -> TreeModel {
        tree_model(*self)
    }
}

/// Tree-shape correctness: a number leaf has no children, an operator node
/// exactly two, and no separator token stands in a tree.
pub open spec fn wf_tree(m: TreeModel) -> bool
    decreases m,
{
    match m.token {
        TokenModel::Number(_) => m.children.len() == 0,
        TokenModel::Operator(_) => m.children.len() == 2 && wf_tree(m.children[0]) && wf_tree(
            m.children[1],
        ),
        _ => false,
    }
}

/// Builds the tree a postfix token sequence denotes, keeping a stack of
/// finished subtrees: a number pushes a leaf; an operator pops its right
/// operand, then its left one, and pushes the combined node. A separator
/// cannot reach this stage, and the input must leave exactly one tree.
pub open spec fn spec_build(input: Seq<TokenModel>, stack: Seq<TreeModel>) -> Result<
    TreeModel,
    EvalError,
>
    decreases input.len(),
{
    if input.len() == 0 {
        if stack.len() == 1 {
            Ok(stack[0])
        } else {
            Err(EvalError::MalformedExpression)
        }
    } else {
        match input.first() {
            TokenModel::Number(v) => spec_build(
                input.drop_first(),
                stack.push(TreeModel { token: TokenModel::Number(v), children: Seq::empty() }),
            ),
            TokenModel::Operator(op) => {
                if stack.len() < 2 {
                    Err(EvalError::MalformedExpression)
                } else {
                    let right = stack.last();
                    let left = stack.drop_last().last();
                    let node = TreeModel {
                        token: TokenModel::Operator(op),
                        children: seq![left, right],
                    };
                    spec_build(input.drop_first(), stack.drop_last().drop_last().push(node))
                }
            },
            _ => Err(EvalError::InvariantViolation),
        }
    }
}

proof fn lemma_children_models_len(cs: Seq<ExpressionTree>)
    ensures
        children_models(cs).len() == cs.len(),
    decreases cs,
{
    if cs.len() > 0 {
        lemma_children_models_len(cs.drop_last());
    }
}

proof fn lemma_children_models_push(cs: Seq<ExpressionTree>, t: ExpressionTree)
    ensures
        children_models(cs.push(t)) == children_models(cs).push(tree_model(t)),
{
    assert(cs.push(t).drop_last() =~= cs);
}

/// A tree assembled from well-formed pieces is itself well formed.
proof fn lemma_spec_build_wf(input: Seq<TokenModel>, stack: Seq<TreeModel>)
    requires
        forall|k: int| 0 <= k < stack.len() ==> wf_tree(#[trigger] stack[k]),
    ensures
        spec_build(input, stack) matches Ok(m) ==> wf_tree(m),
    decreases input.len(),
{
    if input.len() > 0 {
        match input.first() {
            TokenModel::Number(v) => {
                let leaf = TreeModel { token: TokenModel::Number(v), children: Seq::empty() };
                let ns = stack.push(leaf);
                assert(forall|k: int| 0 <= k < ns.len() ==> wf_tree(#[trigger] ns[k]));
                lemma_spec_build_wf(input.drop_first(), ns);
            },
            TokenModel::Operator(op) => {
                if stack.len() >= 2 {
                    let right = stack.last();
                    let left = stack.drop_last().last();
                    let node = TreeModel {
                        token: TokenModel::Operator(op),
                        children: seq![left, right],
                    };
                    assert(wf_tree(stack[stack.len() - 1]));
                    assert(wf_tree(stack[stack.len() - 2]));
                    let ns = stack.drop_last().drop_last().push(node);
                    assert(forall|k: int| 0 <= k < ns.len() ==> wf_tree(#[trigger] ns[k]));
                    lemma_spec_build_wf(input.drop_first(), ns);
                }
            },
            _ => {},
        }
    }
}

/// The depth of the deepest operator node, counting the root as depth zero
/// and looking only below operator nodes, as the step-by-step reduction
/// does; minus one when the root is no operator.
pub open spec fn op_depth(m: TreeModel) -> int
    decreases m,
{
    if !(m.token is Operator) {
        -1
    } else if m.children.len() != 2 {
        0
    } else {
        let dl = op_depth(m.children[0]);
        let dr = op_depth(m.children[1]);
        if dl == -1 && dr == -1 {
            0
        } else if dr >= dl {
            1 + dr
        } else {
            1 + dl
        }
    }
}

/// Each postfix token can raise the operator nesting by at most one, so the
/// built tree's operator depth stays below the input length. This is what
/// lets a caller hand a built tree to `find_node`, whose depth counting must
/// fit in a machine word.
proof fn lemma_spec_build_depth(input: Seq<TokenModel>, stack: Seq<TreeModel>, b: int)
    requires
        b >= -1,
        forall|k: int| 0 <= k < stack.len() ==> op_depth(#[trigger] stack[k]) <= b,
    ensures
        spec_build(input, stack) matches Ok(m) ==> op_depth(m) <= b + input.len(),
    decreases input.len(),
{
    if input.len() > 0 {
        match input.first() {
            TokenModel::Number(v) => {
                let leaf = TreeModel { token: TokenModel::Number(v), children: Seq::empty() };
                let ns = stack.push(leaf);
                assert(op_depth(leaf) == -1);
                assert(forall|k: int| 0 <= k < ns.len() ==> op_depth(#[trigger] ns[k]) <= b);
                lemma_spec_build_depth(input.drop_first(), ns, b);
            },
            TokenModel::Operator(op) => {
                if stack.len() >= 2 {
                    let right = stack.last();
                    let left = stack.drop_last().last();
                    let node = TreeModel {
                        token: TokenModel::Operator(op),
                        children: seq![left, right],
                    };
                    assert(op_depth(stack[stack.len() - 1]) <= b);
                    assert(op_depth(stack[stack.len() - 2]) <= b);
                    assert(op_depth(node) <= b + 1);
                    let ns = stack.drop_last().drop_last().push(node);
                    assert(forall|k: int| 0 <= k < ns.len() ==> op_depth(#[trigger] ns[k]) <= b + 1);
                    lemma_spec_build_depth(input.drop_first(), ns, b + 1);
                }
            },
            _ => {},
        }
    }
}

/// The path, as child indices from the root down, to the operator node the
/// step-by-step reduction picks next: the deepest operator node, and the
/// rightmost of the deepest when both sides go equally deep; the root itself
/// when no operator stands strictly below it.
pub open spec fn spec_find(m: TreeModel) -> Seq<int>
    decreases m,
{
    if !(m.token is Operator) || m.children.len() != 2 {
        Seq::empty()
    } else {
        let dl = op_depth(m.children[0]);
        let dr = op_depth(m.children[1]);
        if dl == -1 && dr == -1 {
            Seq::empty()
        } else if dr >= dl {
            seq![1int] + spec_find(m.children[1])
        } else {
            seq![0int] + spec_find(m.children[0])
        }
    }
}

/// The node a path leads to, as long as every step stays within the
/// children; a step out of range stops at the node reached so far.
pub open spec fn model_at(m: TreeModel, path: Seq<int>) -> TreeModel
    decreases path.len(),
{
    if path.len() == 0 {
        m
    } else if 0 <= path.first() < m.children.len() {
        model_at(m.children[path.first()], path.drop_first())
    } else {
        m
    }
}

/// A node the reduction can collapse: an operator over two number leaves.
pub open spec fn is_reducible(m: TreeModel) -> bool {
    &&& m.token is Operator
    &&& m.children.len() == 2
    &&& m.children[0].token is Number
    &&& m.children[0].children.len() == 0
    &&& m.children[1].token is Number
    &&& m.children[1].children.len() == 0
}

proof fn lemma_op_depth_bounds(m: TreeModel)
    ensures
        op_depth(m) >= -1,
        m.token is Operator ==> op_depth(m) >= 0,
    decreases m,
{
    if m.token is Operator && m.children.len() == 2 {
        lemma_op_depth_bounds(m.children[0]);
        lemma_op_depth_bounds(m.children[1]);
    }
}

/// On a well-formed tree whose root is an operator, the node `spec_find`
/// points at is always collapsible: an operator over two number leaves.
pub proof fn lemma_spec_find_reducible(m: TreeModel)
    requires
        wf_tree(m),
        m.token is Operator,
    ensures
        is_reducible(model_at(m, spec_find(m))),
    decreases m,
{
    let dl = op_depth(m.children[0]);
    let dr = op_depth(m.children[1]);
    lemma_op_depth_bounds(m.children[0]);
    lemma_op_depth_bounds(m.children[1]);
    if dl == -1 && dr == -1 {
        assert(!(m.children[0].token is Operator));
        assert(!(m.children[1].token is Operator));
        assert(wf_tree(m.children[0]));
        assert(wf_tree(m.children[1]));
        assert(m.children[0].token is Number && m.children[0].children.len() == 0);
        assert(m.children[1].token is Number && m.children[1].children.len() == 0);
        assert(model_at(m, spec_find(m)) == m);
        assert(is_reducible(m));
    } else if dr >= dl {
        lemma_spec_find_reducible(m.children[1]);
        let p1 = spec_find(m.children[1]);
        let p = seq![1int] + p1;
        assert(spec_find(m) == p);
        assert(p.first() == 1);
        assert(p.drop_first() =~= p1);
        assert(model_at(m, p) == model_at(m.children[1], p1));
    } else {
        lemma_spec_find_reducible(m.children[0]);
        let p0 = spec_find(m.children[0]);
        let p = seq![0int] + p0;
        assert(spec_find(m) == p);
        assert(p.first() == 0);
        assert(p.drop_first() =~= p0);
        assert(model_at(m, p) == model_at(m.children[0], p0));
    }
}

/// The paths of an index vector, as mathematical integers.
pub open spec fn path_view(p: Seq<usize>) -> Seq<int> {
    p.map_values(|x: usize| x as int)
}

proof fn lemma_path_view_push(p: Seq<usize>, x: usize)
    ensures
        path_view(p.push(x)) == path_view(p).push(x as int),
{
    assert(path_view(p.push(x)) =~= path_view(p).push(x as int));
}

proof fn lemma_children_models_index(cs: Seq<ExpressionTree>, i: int)
    requires
        0 <= i < cs.len(),
    ensures
        children_models(cs)[i] == tree_model(cs[i]),
    decreases cs,
{
    lemma_children_models_len(cs);
    if i < cs.len() - 1 {
        lemma_children_models_index(cs.drop_last(), i);
    }
}

impl ExpressionTree {
    /// Assembles the expression tree of a postfix token sequence. Fails with
    /// `MalformedExpression` when an operator lacks its two operands or the
    /// input does not reduce to exactly one tree, and with
    /// `InvariantViolation` when a separator token survived into this stage.
    pub fn from_postfix_tokens(postfix_tokens: Vec<Token>) -> (r: Result<ExpressionTree, EvalError>)
        ensures
            match r {
                Ok(t) => spec_build(token_views(postfix_tokens@), Seq::empty()) == Ok::<
                    TreeModel,
                    EvalError,
                >(t@) && wf_tree(t@) && op_depth(t@) < postfix_tokens@.len(),
                Err(e) => spec_build(token_views(postfix_tokens@), Seq::empty()) == Err::<
                    TreeModel,
                    EvalError,
                >(e),
            },
    {
        let ghost orig = token_views(postfix_tokens@);
        let mut input = postfix_tokens;
        let mut val_stack: Vec<ExpressionTree> = Vec::new();
        while input.len() > 0
            invariant
                orig == token_views(postfix_tokens@),
                spec_build(orig, Seq::empty()) == spec_build(
                    token_views(input@),
                    children_models(val_stack@),
                ),
            decreases input.len(),
        {
            let ghost pre_input = input@;
            let token = input.remove(0);
            proof {
                lemma_token_views_remove_front(pre_input);
                lemma_children_models_len(val_stack@);
            }
            match token {
                Token::Number { val } => {
                    let node = ExpressionTree {
                        token: Token::Number { val },
                        children: Vec::new(),
                    };
                    proof {
                        assert(node@.children =~= Seq::<TreeModel>::empty());
                        lemma_children_models_push(val_stack@, node);
                    }
                    val_stack.push(node);
                },
                Token::Operator { op } => {
                    if val_stack.len() < 2 {
                        return Err(EvalError::MalformedExpression);
                    }
                    let ghost stack0 = val_stack@;
                    let num2 = val_stack.pop().unwrap();
                    let num1 = val_stack.pop().unwrap();
                    let mut children: Vec<ExpressionTree> = Vec::new();
                    proof {
                        lemma_children_models_push(children@, num1);
                    }
                    children.push(num1);
                    proof {
                        lemma_children_models_push(children@, num2);
                    }
                    children.push(num2);
                    let node = ExpressionTree { token: Token::Operator { op }, children };
                    proof {
                        let cm0 = children_models(stack0);
                        assert(cm0 == children_models(stack0.drop_last()).push(
                            tree_model(stack0.last()),
                        ));
                        assert(cm0.drop_last() =~= children_models(stack0.drop_last()));
                        assert(cm0.drop_last().drop_last() =~= children_models(
                            stack0.drop_last().drop_last(),
                        ));
                        assert(node@.children =~= seq![num1@, num2@]);
                        lemma_children_models_push(stack0.drop_last().drop_last(), node);
                    }
                    val_stack.push(node);
                },
                _ => {
                    return Err(EvalError::InvariantViolation);
                },
            }
        }
        proof {
            lemma_children_models_len(val_stack@);
        }
        if val_stack.len() == 1 {
            let t = val_stack.pop().unwrap();
            proof {
                assert(children_models(val_stack@) =~= Seq::<TreeModel>::empty());
                lemma_spec_build_wf(orig, Seq::empty());
                lemma_spec_build_depth(orig, Seq::empty(), -1);
            }
            Ok(t)
        } else {
            Err(EvalError::MalformedExpression)
        }
    }

    /// How deep the deepest operator below this node stands, or `None` when
    /// this node is no operator.
    fn operator_depth(&self) -> (d: Option<usize>)
        requires
            op_depth(self@) < usize::MAX as int,
        ensures
            match d {
                None => op_depth(self@) == -1,
                Some(k) => op_depth(self@) == k as int,
            },
        decreases *self,
    {
        proof {
            lemma_children_models_len(self.children@);
        }
        match &self.token {
            Token::Operator { .. } => {
                if self.children.len() != 2 {
                    return Some(0);
                }
                proof {
                    lemma_children_models_index(self.children@, 0);
                    lemma_children_models_index(self.children@, 1);
                }
                let dl = self.children[0].operator_depth();
                let dr = self.children[1].operator_depth();
                match (dl, dr) {
                    (None, None) => Some(0),
                    (Some(l), None) => Some(l + 1),
                    (None, Some(r)) => Some(r + 1),
                    (Some(l), Some(r)) => if r >= l {
                        Some(r + 1)
                    } else {
                        Some(l + 1)
                    },
                }
            },
            _ => None,
        }
    }

    /// Walks down to the node the step-by-step reduction collapses next --
    /// the deepest operator node, rightmost among the deepest -- and returns
    /// the path of child indices that leads there from this node. The empty
    /// path points at this node itself: it is returned when no operator
    /// stands strictly below, in particular on a leaf.
    ///
    /// The bound on the operator depth only keeps the depths countable in a
    /// machine word; any tree that fits in memory satisfies it.
    pub fn find_node(&self) -> (path: Vec<usize>)
        requires
            op_depth(self@) < usize::MAX as int,
        ensures
            path_view(path@) == spec_find(self@),
    {
        let mut path: Vec<usize> = Vec::new();
        let mut cur: &ExpressionTree = self;
        proof {
            assert(path_view(path@) + spec_find(cur@) =~= spec_find(self@));
        }
        loop
            invariant_except_break
                op_depth(cur@) < usize::MAX as int,
                spec_find(self@) == path_view(path@) + spec_find(cur@),
            ensures
                path_view(path@) == spec_find(self@),
            decreases op_depth(cur@) + 1,
        {
            let ghost pre_path = path@;
            proof {
                lemma_children_models_len(cur.children@);
            }
            if !matches!(&cur.token, Token::Operator { .. }) || cur.children.len() != 2 {
                proof {
                    assert(spec_find(cur@) =~= Seq::<int>::empty());
                    assert(path_view(path@) + Seq::<int>::empty() =~= path_view(path@));
                }
                break;
            }
            proof {
                lemma_children_models_index(cur.children@, 0);
                lemma_children_models_index(cur.children@, 1);
            }
            let dl = cur.children[0].operator_depth();
            let dr = cur.children[1].operator_depth();
            let go_right: bool = match (dl, dr) {
                (None, None) => {
                    proof {
                        assert(spec_find(cur@) =~= Seq::<int>::empty());
                        assert(path_view(path@) + Seq::<int>::empty() =~= path_view(path@));
                    }
                    break;
                },
                (Some(_), None) => false,
                (None, Some(_)) => true,
                (Some(l), Some(r)) => r >= l,
            };
            if go_right {
                proof {
                    lemma_path_view_push(pre_path, 1);
                    assert(path_view(pre_path.push(1)) + spec_find(cur@.children[1]) =~= path_view(
                        pre_path,
                    ) + (seq![1int] + spec_find(cur@.children[1])));
                }
                path.push(1);
                cur = &cur.children[1];
            } else {
                proof {
                    lemma_path_view_push(pre_path, 0);
                    assert(path_view(pre_path.push(0)) + spec_find(cur@.children[0]) =~= path_view(
                        pre_path,
                    ) + (seq![0int] + spec_find(cur@.children[0])));
                }
                path.push(0);
                cur = &cur.children[0];
            }
        }
        path
    }

    /// Collapses a reducible node -- an operator over two number leaves --
    /// into a single leaf carrying `val`, the rendered result of applying
    /// the operator to its operands. The caller computes that text: the
    /// arithmetic is floating point and stays outside the verified library.
    /// Fails with `InvariantViolation`, leaving the node unchanged, when the
    /// node is not reducible.
    pub fn evaluate_node(&mut self, val: String) -> (r: Result<(), EvalError>)
        ensures
            match r {
                Ok(_) => is_reducible(old(self)@) && final(self)@ == (TreeModel {
                    token: TokenModel::Number(val@),
                    children: Seq::<TreeModel>::empty(),
                }),
                Err(e) => e == EvalError::InvariantViolation && !is_reducible(old(self)@) && *final(self) == *old(self),
            },
    {
        proof {
            lemma_children_models_len(self.children@);
            if self.children@.len() > 0 {
                lemma_children_models_index(self.children@, 0);
            }
            if self.children@.len() > 1 {
                lemma_children_models_index(self.children@, 1);
            }
        }
        if !matches!(&self.token, Token::Operator { .. }) || self.children.len() != 2 {
            return Err(EvalError::InvariantViolation);
        }
        let left_ok = matches!(&self.children[0].token, Token::Number { .. })
            && self.children[0].children.len() == 0;
        let right_ok = matches!(&self.children[1].token, Token::Number { .. })
            && self.children[1].children.len() == 0;
        if !left_ok || !right_ok {
            return Err(EvalError::InvariantViolation);
        }
        self.token = Token::Number { val };
        self.children = Vec::new();
        proof {
            assert(self@.children =~= Seq::<TreeModel>::empty());
        }
        Ok(())
    }
}

} // verus!
