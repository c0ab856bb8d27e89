//! Loop labeling: gives every loop a fresh identifier and every `break` and
//! `continue` the identifier of the innermost loop around it.
use vstd::prelude::*;
use vstd::string::*;

use crate::ast::{Block, BlockItem, Identifier, Statement};
use crate::decimal::{dec, push_decimal};
use crate::errors::Error;

verus! {

/// The number of loops in a statement.
pub open spec fn loop_count(s: Statement) -> nat
    decreases s,
{
    match s {
        Statement::If { then, else_statement, .. } => loop_count(*then) + match else_statement {
            Some(x) => loop_count(*x),
            None => 0,
        },
        Statement::Compound(block) => items_loop_count(block.0@),
        Statement::While { body, .. } => 1 + loop_count(*body),
        Statement::DoWhile { body, .. } => 1 + loop_count(*body),
        Statement::For { body, .. } => 1 + loop_count(*body),
        _ => 0,
    }
}

pub open spec fn item_loop_count(item: BlockItem) -> nat
    decreases item,
{
    match item {
        BlockItem::S(s) => loop_count(s),
        BlockItem::D(_) => 0,
    }
}

pub open spec fn items_loop_count(items: Seq<BlockItem>) -> nat
    decreases items,
{
    if items.len() == 0 {
        0
    } else {
        items_loop_count(items.subrange(0, items.len() - 1)) + item_loop_count(
            items[items.len() - 1],
        )
    }
}

/// Every `break` and `continue` of `s` stands inside a loop (or `in_loop` holds).
pub open spec fn jumps_enclosed(s: Statement, in_loop: bool) -> bool
    decreases s,
{
    match s {
        Statement::Break { .. } => in_loop,
        Statement::Continue { .. } => in_loop,
        Statement::If { then, else_statement, .. } => jumps_enclosed(*then, in_loop) && match
            else_statement {
            Some(x) => jumps_enclosed(*x, in_loop),
            None => true,
        },
        Statement::Compound(block) => items_jumps_enclosed(block.0@, in_loop),
        Statement::While { body, .. } => jumps_enclosed(*body, true),
        Statement::DoWhile { body, .. } => jumps_enclosed(*body, true),
        Statement::For { body, .. } => jumps_enclosed(*body, true),
        _ => true,
    }
}

pub open spec fn item_jumps_enclosed(item: BlockItem, in_loop: bool) -> bool
    decreases item,
{
    match item {
        BlockItem::S(s) => jumps_enclosed(s, in_loop),
        BlockItem::D(_) => true,
    }
}

pub open spec fn items_jumps_enclosed(items: Seq<BlockItem>, in_loop: bool) -> bool
    decreases items,
{
    forall|k: int| 0 <= k < items.len() ==> item_jumps_enclosed(#[trigger] items[k], in_loop)
}

/// The identifier that loop labeling draws for the loop numbered `n`.
pub open spec fn loop_name(n: nat) -> Seq<char> {
    "label."@ + dec(n)
}

/// `out` is `s` with its loops numbered from `n + 1` on, in order, and each `break`
/// and `continue` labeled with the innermost loop around it (`cur` outside all of
/// them).
pub open spec fn labeled(s: Statement, out: Statement, cur: Option<Seq<char>>, n: nat) -> bool
    decreases s,
{
    match s {
        Statement::Break { .. } => out matches Statement::Break { label: Some(l) } && cur == Some(
            l@,
        ),
        Statement::Continue { .. } => out matches Statement::Continue { label: Some(l) } && cur
            == Some(l@),
        Statement::If { condition, then, else_statement } => match out {
            Statement::If { condition: c2, then: t2, else_statement: e2 } => condition == c2
                && labeled(*then, *t2, cur, n) && match else_statement {
                Some(x) => e2 is Some && labeled(*x, *e2->0, cur, n + loop_count(*then)),
                None => e2 is None,
            },
            _ => false,
        },
        Statement::Compound(block) => match out {
            Statement::Compound(b2) => items_labeled(block.0@, b2.0@, cur, n),
            _ => false,
        },
        Statement::While { condition, body, .. } => match out {
            Statement::While { condition: c2, body: b2, identifier: Some(id) } => condition == c2
                && id@ == loop_name(n + 1) && labeled(*body, *b2, Some(id@), n + 1),
            _ => false,
        },
        Statement::DoWhile { condition, body, .. } => match out {
            Statement::DoWhile { condition: c2, body: b2, identifier: Some(id) } => condition
                == c2 && id@ == loop_name(n + 1) && labeled(*body, *b2, Some(id@), n + 1),
            _ => false,
        },
        Statement::For { initializer, condition, post, body, .. } => match out {
            Statement::For {
                initializer: i2,
                condition: c2,
                post: post_out,
                body: b2,
                identifier: Some(id),
            } => initializer == i2 && condition == c2 && post == post_out && id@ == loop_name(n + 1)
                && labeled(*body, *b2, Some(id@), n + 1),
            _ => false,
        },
        _ => out == s,
    }
}

pub open spec fn item_labeled(item: BlockItem, out: BlockItem, cur: Option<Seq<char>>, n: nat) -> bool
    decreases item,
{
    match item {
        BlockItem::S(s) => match out {
            BlockItem::S(s2) => labeled(s, s2, cur, n),
            _ => false,
        },
        BlockItem::D(_) => out == item,
    }
}

pub open spec fn items_labeled(
    items: Seq<BlockItem>,
    out: Seq<BlockItem>,
    cur: Option<Seq<char>>,
    n: nat,
) -> bool
    decreases items,
{
    &&& out.len() == items.len()
    &&& forall|k: int|
        0 <= k < items.len() ==> item_labeled(
            #[trigger] items[k],
            out[k],
            cur,
            n + items_loop_count(items.subrange(0, k)),
        )
}

/// Numbers loops and labels `break` and `continue` statements.
pub struct LoopLabeling {
    /// The identifier of the innermost loop being visited, if any.
    pub current_label: Option<Identifier>,
    /// The number of loops labeled so far.
    pub offset: u64,
}

impl LoopLabeling {
    pub open spec fn count(&self) -> nat {
        self.offset as nat
    }

    pub fn new() -> (r: LoopLabeling)
        ensures
            r.count() == 0,
            r.current_label is None,
    {
        LoopLabeling { current_label: None, offset: 0 }
    }

    /// The identifier of the innermost loop; only asked inside a loop.
    pub fn annotate(&self) -> (r: Identifier)
        requires
            self.current_label is Some,
        ensures
            r@ == self.current_label->0@,
    {
        match &self.current_label {
            Some(label) => label.duplicate(),
            None => Identifier(String::new()),
        }
    }

    /// Draws the identifier of the next loop, `label.<n>`.
    pub fn make_label(&mut self) -> (r: Identifier)
        requires
            old(self).count() < u64::MAX,
        ensures
            final(self).count() == old(self).count() + 1,
            final(self).current_label == old(self).current_label,
            r@ == loop_name(final(self).count()),
    {
        self.offset = self.offset + 1;
        let mut s = String::from_str("label.");
        push_decimal(&mut s, self.offset);
        Identifier(s)
    }

    /// Labels the loops of `s` and the jumps out of them; `current` is the innermost
    /// loop around `s`. Fails when a `break` or `continue` stands outside any loop.
    pub fn label_statement(&mut self, s: Statement, current: &Option<Identifier>) -> (r: Result<
        Statement,
        Error,
    >)
        requires
            old(self).count() + loop_count(s) <= u64::MAX,
        ensures
            r is Ok <==> jumps_enclosed(s, current is Some),
            r is Ok ==> labeled(s, r->Ok_0, opt_view(*current), old(self).count())
                && final(self).count() == old(self).count() + loop_count(s),
            r is Err ==> r->Err_0 is JumpOutsideLoop,
            final(self).current_label == old(self).current_label,
        decreases s, 1nat,
    {
        match s {
            Statement::Break { label: _ } => match current {
                Some(c) => Ok(Statement::Break { label: Some(c.duplicate()) }),
                None => Err(Error::JumpOutsideLoop),
            },
            Statement::Continue { label: _ } => match current {
                Some(c) => Ok(Statement::Continue { label: Some(c.duplicate()) }),
                None => Err(Error::JumpOutsideLoop),
            },
            Statement::If { condition, then, else_statement } => {
                let ghost n = self.count();
                let ghost then_count = loop_count(*then);
                let t2 = match self.label_statement(*then, current) {
                    Ok(t) => t,
                    Err(e) => return Err(e),
                };
                let e2 = match else_statement {
                    Some(x) => match self.label_statement(*x, current) {
                        Ok(v) => Some(Box::new(v)),
                        Err(e) => return Err(e),
                    },
                    None => None,
                };
                Ok(Statement::If { condition, then: Box::new(t2), else_statement: e2 })
            },
            Statement::Compound(block) => match self.label_items(block.0, current) {
                Ok(items) => Ok(Statement::Compound(Block(items))),
                Err(e) => Err(e),
            },
            Statement::While { condition, body, identifier: _ } => {
                let id = self.make_label();
                let inner = Some(id.duplicate());
                match self.label_statement(*body, &inner) {
                    Ok(b) => Ok(
                        Statement::While { condition, body: Box::new(b), identifier: Some(id) },
                    ),
                    Err(e) => Err(e),
                }
            },
            Statement::DoWhile { body, condition, identifier: _ } => {
                let id = self.make_label();
                let inner = Some(id.duplicate());
                match self.label_statement(*body, &inner) {
                    Ok(b) => Ok(
                        Statement::DoWhile { body: Box::new(b), condition, identifier: Some(id) },
                    ),
                    Err(e) => Err(e),
                }
            },
            Statement::For { initializer, condition, post, body, identifier: _ } => {
                let id = self.make_label();
                let inner = Some(id.duplicate());
                match self.label_statement(*body, &inner) {
                    Ok(b) => Ok(
                        Statement::For {
                            initializer,
                            condition,
                            post,
                            body: Box::new(b),
                            identifier: Some(id),
                        },
                    ),
                    Err(e) => Err(e),
                }
            },
            other => Ok(other),
        }
    }

    fn label_item(&mut self, item: BlockItem, current: &Option<Identifier>) -> (r: Result<
        BlockItem,
        Error,
    >)
        requires
            old(self).count() + item_loop_count(item) <= u64::MAX,
        ensures
            r is Ok <==> item_jumps_enclosed(item, current is Some),
            r is Ok ==> item_labeled(item, r->Ok_0, opt_view(*current), old(self).count())
                && final(self).count() == old(self).count() + item_loop_count(item),
            r is Err ==> r->Err_0 is JumpOutsideLoop,
            final(self).current_label == old(self).current_label,
        decreases item, 2nat,
    {
        match item {
            BlockItem::S(st) => match self.label_statement(st, current) {
                Ok(st2) => Ok(BlockItem::S(st2)),
                Err(e) => Err(e),
            },
            BlockItem::D(d) => Ok(BlockItem::D(d)),
        }
    }

    /// Labels the statements of a block in order.
    #[verifier::rlimit(100)]
    pub fn label_items(&mut self, items: Vec<BlockItem>, current: &Option<Identifier>) -> (r:
        Result<Vec<BlockItem>, Error>)
        requires
            old(self).count() + items_loop_count(items@) <= u64::MAX,
        ensures
            r is Ok <==> items_jumps_enclosed(items@, current is Some),
            r is Ok ==> items_labeled(items@, r->Ok_0@, opt_view(*current), old(self).count())
                && final(self).count() == old(self).count() + items_loop_count(items@),
            r is Err ==> r->Err_0 is JumpOutsideLoop,
            final(self).current_label == old(self).current_label,
        decreases items, 0nat,
    {
        let ghost orig_vec = items;
        let ghost orig = items@;
        let ghost n0 = self.count();
        let ghost len = items@.len();
        let mut rest = items;
        let total: usize = rest.len();
        let mut out: Vec<BlockItem> = Vec::new();
        let mut i: usize = 0;
        proof {
            assert(orig.subrange(0, 0) =~= Seq::<BlockItem>::empty());
            assert(orig.subrange(0, len as int) =~= orig);
        }
        while rest.len() > 0
            invariant
                0 <= i <= len,
                len == orig.len(),
                orig_vec@ == orig,
                orig_vec == items,
                len == total,
                rest@ == orig.subrange(i as int, len as int),
                out@.len() == i,
                n0 + items_loop_count(orig) <= u64::MAX,
                self.count() == n0 + items_loop_count(orig.subrange(0, i as int)),
                forall|k: int|
                    0 <= k < i ==> item_labeled(
                        #[trigger] orig[k],
                        out@[k],
                        opt_view(*current),
                        n0 + items_loop_count(orig.subrange(0, k)),
                    ),
                forall|k: int| 0 <= k < i ==> item_jumps_enclosed(#[trigger] orig[k], current is Some),
                self.current_label == old(self).current_label,
            decreases rest@.len(),
        {
            proof {
                assert(rest@.len() == len - i);
                assert(i < len);
            }
            let item = rest.remove(0);
            proof {
                assert(item == orig[i as int]);
                lemma_items_prefix_count(orig, i as int + 1);
                let p = orig.subrange(0, i + 1);
                assert(p.subrange(0, p.len() - 1) =~= orig.subrange(0, i as int));
                assert(p[p.len() - 1] == orig[i as int]);
            }
            proof {
                vstd::std_specs::vec::axiom_vec_index_decreases(orig_vec, i as int);
            }
            let ghost before = out@;
            match self.label_item(item, current) {
                Ok(item2) => {
                    out.push(item2);
                    proof {
                        assert forall|k: int| 0 <= k < i implies out@[k] == before[k] by {}
                    }
                },
                Err(e) => {
                    return Err(e);
                },
            }
            proof {
                assert(rest@ =~= orig.subrange(i + 1, len as int));
            }
            i += 1;
        }
        proof {
            assert(i == len);
            assert(orig.subrange(0, len as int) =~= orig);
        }
        Ok(out)
    }
}

/// The view of an optional identifier.
pub open spec fn opt_view(id: Option<Identifier>) -> Option<Seq<char>> {
    match id {
        Some(i) => Some(i@),
        None => None,
    }
}

/// The loops of a prefix are at most those of the whole sequence.
proof fn lemma_items_prefix_count(items: Seq<BlockItem>, i: int)
    requires
        0 <= i <= items.len(),
    ensures
        items_loop_count(items.subrange(0, i)) <= items_loop_count(items),
    decreases items.len() - i,
{
    if i < items.len() {
        lemma_items_prefix_count(items, i + 1);
        let p = items.subrange(0, i + 1);
        assert(p.subrange(0, p.len() - 1) =~= items.subrange(0, i));
    } else {
        assert(items.subrange(0, i) =~= items);
    }
}

} // verus!
