//! Labels of lowered code: the names that lowering draws from its counter never
//! collide with each other or with loop labels, and a lowered function defines each
//! label once and jumps only to labels it defines.
use vstd::prelude::*;

use crate::ast::{self, item_wf, items_wf, stmt_wf, ForInit, BinaryOperator, BlockItem, Declaration, Expression, Statement, VariableDeclaration};
use crate::assembly::{select, select_instr, AsmInstr};
use crate::decimal::dec;
use crate::tac::{
    break_label, continue_label, fallthrough_value, lemma_exp_grows, loop_id, lemma_item_grows,
    lemma_items_grows, lemma_stmt_grows, lower_decl, lower_exp, lower_for_condition,
    lower_for_init, lower_function, lower_item, lower_opt,
    lower_items, lower_stmt,
    short_circuit_jump, short_circuit_label, start_label, taken_value, Counters, IrInstr, IrVal,
};

verus! {

/// The label forms that lowering numbers from its label counter: the early exit of
/// `&&` and of `||`, the end of either, the second branch and the end of a
/// conditional expression, the end and the else branch of an `if`.
pub open spec fn numbered_label(form: nat, n: nat) -> Seq<char> {
    if form == 0 {
        "and_false."@ + dec(n)
    } else if form == 1 {
        "or_false."@ + dec(n)
    } else if form == 2 {
        "end."@ + dec(n)
    } else if form == 3 {
        "exp2"@ + dec(n)
    } else if form == 4 {
        "end"@ + dec(n)
    } else {
        "else"@ + dec(n)
    }
}

proof fn lemma_prefix_dec_injective(p: Seq<char>, n: nat, m: nat)
    requires
        p + dec(n) == p + dec(m),
    ensures
        n == m,
{
    assert((p + dec(n)).subrange(p.len() as int, (p + dec(n)).len() as int) =~= dec(n));
    assert((p + dec(m)).subrange(p.len() as int, (p + dec(m)).len() as int) =~= dec(m));
    crate::decimal::lemma_dec_injective(n, m);
}

/// Label names drawn from the counter never collide: two of them are equal only
/// when both the form and the number are, and none equals a loop's `continue_`,
/// `break_` or `start_` label.
pub proof fn lemma_label_names_distinct(f1: nat, n1: nat, f2: nat, n2: nat, id: Seq<char>)
    requires
        f1 < 6,
        f2 < 6,
    ensures
        numbered_label(f1, n1) == numbered_label(f2, n2) ==> f1 == f2 && n1 == n2,
        numbered_label(f1, n1) != continue_label(id),
        numbered_label(f1, n1) != break_label(id),
        numbered_label(f1, n1) != start_label(id),
{
    reveal_strlit("and_false.");
    reveal_strlit("or_false.");
    reveal_strlit("end.");
    reveal_strlit("exp2");
    reveal_strlit("end");
    reveal_strlit("else");
    reveal_strlit("continue_");
    reveal_strlit("break_");
    reveal_strlit("start_");
    crate::decimal::lemma_dec_digits(n1);
    crate::decimal::lemma_dec_digits(n2);
    let a = numbered_label(f1, n1);
    let b = numbered_label(f2, n2);
    assert(a[0] != 'c' && a[0] != 'b' && a[0] != 's');
    assert(continue_label(id)[0] == 'c');
    assert(break_label(id)[0] == 'b');
    assert(start_label(id)[0] == 's');
    if a == b {
        if f1 != f2 {
            // The forms differ within their first four characters, except `end`
            // and `end.`, which differ at the fourth: a digit against a dot.
            assert(a[0] == b[0] && a[1] == b[1] && a[2] == b[2] && a[3] == b[3]);
            assert(false);
        } else {
            let p = if f1 == 0 {
                "and_false."@
            } else if f1 == 1 {
                "or_false."@
            } else if f1 == 2 {
                "end."@
            } else if f1 == 3 {
                "exp2"@
            } else if f1 == 4 {
                "end"@
            } else {
                "else"@
            };
            assert(a == p + dec(n1) && b == p + dec(n2));
            lemma_prefix_dec_injective(p, n1, n2);
        }
    }
}

/// The labels that `code` defines, in order.
pub open spec fn defined_labels(code: Seq<IrInstr>) -> Seq<Seq<char>>
    decreases code.len(),
{
    if code.len() == 0 {
        seq![]
    } else {
        let front = defined_labels(code.drop_last());
        match code.last() {
            IrInstr::Label(l) => front.push(l),
            _ => front,
        }
    }
}

/// The label that a jump of `code` at `k` leads to, if it is a jump.
pub open spec fn jump_target(i: IrInstr) -> Option<Seq<char>> {
    match i {
        IrInstr::Jump(l) => Some(l),
        IrInstr::JumpIfZero(_, l) => Some(l),
        IrInstr::JumpIfNotZero(_, l) => Some(l),
        _ => None,
    }
}

/// `l` is a label drawn from the counter with a number in `(lo, hi]`.
pub open spec fn drawn_between(l: Seq<char>, lo: nat, hi: nat) -> bool {
    exists|f: nat, n: nat| f < 6 && lo < n <= hi && l == #[trigger] numbered_label(f, n)
}

pub open spec fn all_drawn_between(ls: Seq<Seq<char>>, lo: nat, hi: nat) -> bool {
    forall|k: int| 0 <= k < ls.len() ==> drawn_between(#[trigger] ls[k], lo, hi)
}

proof fn lemma_defined_concat(a: Seq<IrInstr>, b: Seq<IrInstr>)
    ensures
        defined_labels(a + b) == defined_labels(a) + defined_labels(b),
    decreases b.len(),
{
    if b.len() == 0 {
        assert(a + b =~= a);
        assert(defined_labels(a) + defined_labels(b) =~= defined_labels(a));
    } else {
        lemma_defined_concat(a, b.drop_last());
        assert((a + b).drop_last() =~= a + b.drop_last());
        assert((a + b).last() == b.last());
        assert(defined_labels(a + b) =~= defined_labels(a) + defined_labels(b));
    }
}

proof fn lemma_drawn_widen(ls: Seq<Seq<char>>, lo: nat, hi: nat, lo2: nat, hi2: nat)
    requires
        all_drawn_between(ls, lo, hi),
        lo2 <= lo,
        hi <= hi2,
    ensures
        all_drawn_between(ls, lo2, hi2),
{
    assert forall|k: int| 0 <= k < ls.len() implies drawn_between(#[trigger] ls[k], lo2, hi2) by {
        let (f, n) = choose|f: nat, n: nat|
            f < 6 && lo < n <= hi && ls[k] == #[trigger] numbered_label(f, n);
        assert(numbered_label(f, n) == ls[k]);
    }
}

proof fn lemma_drawn_disjoint(l: Seq<char>, lo: nat, mid: nat, hi: nat)
    requires
        drawn_between(l, lo, mid),
    ensures
        !drawn_between(l, mid, hi),
{
    let (f1, n1) = choose|f: nat, n: nat| f < 6 && lo < n <= mid && l == #[trigger] numbered_label(f, n);
    if drawn_between(l, mid, hi) {
        let (f2, n2) = choose|f: nat, n: nat|
            f < 6 && mid < n <= hi && l == #[trigger] numbered_label(f, n);
        lemma_label_names_distinct(f1, n1, f2, n2, seq![]);
    }
}

/// Two label lists drawn from disjoint number ranges, each without repeats, join
/// without repeats.
proof fn lemma_join_unique(
    a: Seq<Seq<char>>,
    b: Seq<Seq<char>>,
    lo_a: nat,
    hi_a: nat,
    lo_b: nat,
    hi_b: nat,
)
    requires
        a.no_duplicates(),
        b.no_duplicates(),
        all_drawn_between(a, lo_a, hi_a),
        all_drawn_between(b, lo_b, hi_b),
        hi_a <= lo_b || hi_b <= lo_a,
    ensures
        (a + b).no_duplicates(),
{
    assert forall|i: int, j: int| 0 <= i < j < (a + b).len() implies (a + b)[i] != (a + b)[j] by {
        if i < a.len() && j >= a.len() {
            assert((a + b)[i] == a[i]);
            assert((a + b)[j] == b[j - a.len()]);
            if hi_a <= lo_b {
                lemma_drawn_widen(b, lo_b, hi_b, hi_a, hi_b);
                lemma_drawn_disjoint(a[i], lo_a, hi_a, hi_b);
            } else {
                lemma_drawn_widen(a, lo_a, hi_a, hi_b, hi_a);
                lemma_drawn_disjoint(b[j - a.len()], lo_b, hi_b, hi_a);
            }
        } else if j < a.len() {
            assert((a + b)[i] == a[i]);
            assert((a + b)[j] == a[j]);
        } else {
            assert((a + b)[i] == b[i - a.len()]);
            assert((a + b)[j] == b[j - a.len()]);
        }
    }
}

proof fn lemma_drawn_concat(a: Seq<Seq<char>>, b: Seq<Seq<char>>, lo: nat, hi: nat)
    requires
        all_drawn_between(a, lo, hi),
        all_drawn_between(b, lo, hi),
    ensures
        all_drawn_between(a + b, lo, hi),
{
    assert forall|k: int| 0 <= k < (a + b).len() implies drawn_between(#[trigger] (a + b)[k], lo, hi) by {
        if k < a.len() {
            assert((a + b)[k] == a[k]);
        } else {
            assert((a + b)[k] == b[k - a.len()]);
        }
    }
}

/// Every jump of `code` leads to a label in `ls`.
pub open spec fn targets_in(code: Seq<IrInstr>, ls: Seq<Seq<char>>) -> bool {
    forall|k: int|
        0 <= k < code.len() && (#[trigger] jump_target(code[k])) is Some ==> ls.contains(
            jump_target(code[k])->0,
        )
}

proof fn lemma_targets_concat(a: Seq<IrInstr>, b: Seq<IrInstr>, ls: Seq<Seq<char>>)
    requires
        targets_in(a, ls),
        targets_in(b, ls),
    ensures
        targets_in(a + b, ls),
{
    assert forall|k: int|
        0 <= k < (a + b).len() && (#[trigger] jump_target((a + b)[k])) is Some implies ls.contains(
        jump_target((a + b)[k])->0,
    ) by {
        if k < a.len() {
            assert((a + b)[k] == a[k]);
        } else {
            assert((a + b)[k] == b[k - a.len()]);
        }
    }
}

proof fn lemma_targets_widen(a: Seq<IrInstr>, ls: Seq<Seq<char>>, more: Seq<Seq<char>>)
    requires
        targets_in(a, ls),
        forall|k: int| 0 <= k < ls.len() ==> more.contains(#[trigger] ls[k]),
    ensures
        targets_in(a, more),
{
    assert forall|k: int|
        0 <= k < a.len() && (#[trigger] jump_target(a[k])) is Some implies more.contains(
        jump_target(a[k])->0,
    ) by {
        let j = choose|j: int| 0 <= j < ls.len() && ls[j] == jump_target(a[k])->0;
        assert(more.contains(ls[j]));
    }
}

/// The labels and jumps that lowering an expression produces.
pub open spec fn labels_sound(code: Seq<IrInstr>, lo: nat, hi: nat) -> bool {
    &&& defined_labels(code).no_duplicates()
    &&& all_drawn_between(defined_labels(code), lo, hi)
    &&& targets_in(code, defined_labels(code))
}

proof fn lemma_sound_push(code: Seq<IrInstr>, x: IrInstr, lo: nat, hi: nat)
    requires
        labels_sound(code, lo, hi),
        !(x is Label),
        jump_target(x) is None,
    ensures
        labels_sound(code.push(x), lo, hi),
{
    assert(code.push(x).drop_last() =~= code);
    assert forall|k: int|
        0 <= k < code.push(x).len() && (#[trigger] jump_target(code.push(x)[k])) is Some implies defined_labels(
        code.push(x),
    ).contains(jump_target(code.push(x)[k])->0) by {
        assert(code.push(x)[k] == code[k]);
    }
}

proof fn lemma_sound_concat(
    a: Seq<IrInstr>,
    b: Seq<IrInstr>,
    lo_a: nat,
    hi_a: nat,
    lo_b: nat,
    hi_b: nat,
    lo: nat,
    hi: nat,
)
    requires
        labels_sound(a, lo_a, hi_a),
        labels_sound(b, lo_b, hi_b),
        hi_a <= lo_b || hi_b <= lo_a,
        lo <= lo_a,
        lo <= lo_b,
        hi_a <= hi,
        hi_b <= hi,
    ensures
        labels_sound(a + b, lo, hi),
{
    let da = defined_labels(a);
    let db = defined_labels(b);
    lemma_defined_concat(a, b);
    lemma_join_unique(da, db, lo_a, hi_a, lo_b, hi_b);
    lemma_drawn_widen(da, lo_a, hi_a, lo, hi);
    lemma_drawn_widen(db, lo_b, hi_b, lo, hi);
    lemma_drawn_concat(da, db, lo, hi);
    assert forall|k: int| 0 <= k < da.len() implies (da + db).contains(#[trigger] da[k]) by {
        assert((da + db)[k] == da[k]);
    }
    assert forall|k: int| 0 <= k < db.len() implies (da + db).contains(#[trigger] db[k]) by {
        assert((da + db)[k + da.len()] == db[k]);
    }
    lemma_targets_widen(a, da, da + db);
    lemma_targets_widen(b, db, da + db);
    lemma_targets_concat(a, b, da + db);
}

proof fn lemma_defined_push(code: Seq<IrInstr>, x: IrInstr)
    ensures
        defined_labels(code.push(x)) == match x {
            IrInstr::Label(l) => defined_labels(code).push(l),
            _ => defined_labels(code),
        },
{
    assert(code.push(x).drop_last() =~= code);
}

proof fn lemma_contains_split(a: Seq<Seq<char>>, b: Seq<Seq<char>>, x: Seq<char>)
    ensures
        (a + b).contains(x) ==> a.contains(x) || b.contains(x),
{
    if (a + b).contains(x) {
        let k = choose|k: int| 0 <= k < (a + b).len() && (a + b)[k] == x;
        if k < a.len() {
            assert(a[k] == x);
        } else {
            assert(b[k - a.len()] == x);
        }
    }
}

/// A label numbered outside `(lo, hi]` is not among labels drawn from that range.
proof fn lemma_outside(f: nat, n: nat, ls: Seq<Seq<char>>, lo: nat, hi: nat)
    requires
        f < 6,
        n <= lo || n > hi,
        all_drawn_between(ls, lo, hi),
    ensures
        !ls.contains(numbered_label(f, n)),
{
    if ls.contains(numbered_label(f, n)) {
        let k = choose|k: int| 0 <= k < ls.len() && ls[k] == numbered_label(f, n);
        assert(drawn_between(ls[k], lo, hi));
        let (f2, n2) = choose|f2: nat, n2: nat|
            f2 < 6 && lo < n2 <= hi && ls[k] == #[trigger] numbered_label(f2, n2);
        lemma_label_names_distinct(f, n, f2, n2, seq![]);
    }
}

proof fn lemma_push_fresh(ls: Seq<Seq<char>>, l: Seq<char>)
    requires
        ls.no_duplicates(),
        !ls.contains(l),
    ensures
        ls.push(l).no_duplicates(),
{
    assert forall|i: int, j: int| 0 <= i < j < ls.push(l).len() implies ls.push(l)[i] != ls.push(
        l,
    )[j] by {
        if j == ls.len() {
            assert(ls.push(l)[i] == ls[i]);
        }
    }
}

proof fn lemma_drawn_push(ls: Seq<Seq<char>>, f: nat, n: nat, lo: nat, hi: nat)
    requires
        all_drawn_between(ls, lo, hi),
        f < 6,
        lo < n <= hi,
    ensures
        all_drawn_between(ls.push(numbered_label(f, n)), lo, hi),
{
    assert forall|k: int| 0 <= k < ls.push(numbered_label(f, n)).len() implies drawn_between(
        #[trigger] ls.push(numbered_label(f, n))[k],
        lo,
        hi,
    ) by {
        if k < ls.len() {
            assert(ls.push(numbered_label(f, n))[k] == ls[k]);
        } else {
            assert(ls.push(numbered_label(f, n))[k] == numbered_label(f, n));
        }
    }
}

/// Lowering an expression defines each of its labels once, draws all of them from
/// the counter numbers it used, and every jump it emits leads to one of them.
pub proof fn lemma_exp_labels(e: Expression, c: Counters)
    ensures
        labels_sound(lower_exp(e, c).0, c.labels, lower_exp(e, c).2.labels),
    decreases e, 1nat,
{
    let (code, v, c2) = lower_exp(e, c);
    match e {
        Expression::Constant(_) => {
            assert(defined_labels(code) =~= Seq::<Seq<char>>::empty());
        },
        Expression::Var(_) => {
            assert(defined_labels(code) =~= Seq::<Seq<char>>::empty());
        },
        Expression::Unary(op, inner) => {
            lemma_exp_labels(*inner, c);
            let (ci, vi, c1) = lower_exp(*inner, c);
            lemma_sound_push(ci, IrInstr::Unary(op, vi, v), c.labels, c1.labels);
        },
        Expression::Binary(op, a, b) => {
            if op.is_logical() {
                lemma_binary_logical_labels(e, c);
            } else {
                lemma_exp_labels(*a, c);
                let (ca, va, c1) = lower_exp(*a, c);
                lemma_exp_labels(*b, c1);
                lemma_exp_grows(*a, c);
                lemma_exp_grows(*b, c1);
                let (cb, vb, c3) = lower_exp(*b, c1);
                lemma_sound_concat(ca, cb, c.labels, c1.labels, c1.labels, c3.labels, c.labels, c3.labels);
                lemma_sound_push(ca + cb, IrInstr::Binary(op, va, vb, v), c.labels, c3.labels);
            }
        },
        Expression::Assignment(lhs, rhs) => {
            lemma_exp_labels(*rhs, c);
            let (cr, vr, c1) = lower_exp(*rhs, c);
            lemma_exp_labels(*lhs, c1);
            lemma_exp_grows(*rhs, c);
            lemma_exp_grows(*lhs, c1);
            let (cl, vl, c3) = lower_exp(*lhs, c1);
            lemma_sound_concat(cr, cl, c.labels, c1.labels, c1.labels, c3.labels, c.labels, c3.labels);
            lemma_sound_push(cr + cl, IrInstr::Copy(vr, vl), c.labels, c3.labels);
        },
        Expression::Conditional { condition, exp1, exp2 } => {
            lemma_conditional_labels(e, c);
        },
    }
}

proof fn lemma_defined_nolabels(xs: Seq<IrInstr>)
    requires
        forall|k: int| 0 <= k < xs.len() ==> !(#[trigger] xs[k] is Label),
    ensures
        defined_labels(xs) == Seq::<Seq<char>>::empty(),
    decreases xs.len(),
{
    if xs.len() > 0 {
        lemma_defined_nolabels(xs.drop_last());
    }
}

proof fn lemma_single_target(x: IrInstr, ls: Seq<Seq<char>>)
    requires
        jump_target(x) is Some ==> ls.contains(jump_target(x)->0),
    ensures
        targets_in(seq![x], ls),
{
    assert(seq![x][0] == x);
}

#[verifier::rlimit(60)]
proof fn lemma_binary_logical_labels(e: Expression, c: Counters)
    requires
        e matches Expression::Binary(op, _, _) && op.is_logical(),
    ensures
        labels_sound(lower_exp(e, c).0, c.labels, lower_exp(e, c).2.labels),
    decreases e, 0nat,
{
    if let Expression::Binary(op, a, b) = e {
        let (code, v, c3) = lower_exp(e, c);
        let (ca, va, c1) = lower_exp(*a, c);
        let n = c1.labels + 1;
        let cbs = Counters { temps: c1.temps, labels: n };
        let (cb, vb, c2) = lower_exp(*b, cbs);
        lemma_exp_labels(*a, c);
        lemma_exp_labels(*b, cbs);
        lemma_exp_grows(*a, c);
        lemma_exp_grows(*b, cbs);
        let f: nat = if op is And { 0 } else { 1 };
        let short = short_circuit_label(op, n);
        let end = "end."@ + dec(n);
        assert(short == numbered_label(f, n));
        assert(end == numbered_label(2, n));
        let result = IrVal::Var("result."@ + dec(n));
        let j1 = short_circuit_jump(op, va, short);
        let tail = seq![
            short_circuit_jump(op, vb, short),
            IrInstr::Copy(IrVal::Constant(fallthrough_value(op)), result),
            IrInstr::Jump(end),
            IrInstr::Label(short),
            IrInstr::Copy(IrVal::Constant(taken_value(op)), result),
            IrInstr::Label(end),
        ];
        assert(code == ca + seq![j1] + cb + tail);
        // The labels that the code defines.
        let da = defined_labels(ca);
        let db = defined_labels(cb);
        lemma_defined_nolabels(seq![j1]);
        let t4 = seq![
            short_circuit_jump(op, vb, short),
            IrInstr::Copy(IrVal::Constant(fallthrough_value(op)), result),
            IrInstr::Jump(end),
        ];
        lemma_defined_nolabels(t4);
        lemma_defined_push(t4, IrInstr::Label(short));
        lemma_defined_push(t4.push(IrInstr::Label(short)), IrInstr::Copy(IrVal::Constant(taken_value(op)), result));
        lemma_defined_push(
            t4.push(IrInstr::Label(short)).push(IrInstr::Copy(IrVal::Constant(taken_value(op)), result)),
            IrInstr::Label(end),
        );
        assert(tail == t4.push(IrInstr::Label(short)).push(
            IrInstr::Copy(IrVal::Constant(taken_value(op)), result),
        ).push(IrInstr::Label(end)));
        assert(defined_labels(tail) =~= seq![short, end]);
        lemma_defined_concat(ca, seq![j1]);
        lemma_defined_concat(ca + seq![j1], cb);
        lemma_defined_concat(ca + seq![j1] + cb, tail);
        assert(da + Seq::<Seq<char>>::empty() =~= da);
        let x = da + db;
        let d = defined_labels(code);
        assert(d =~= x.push(short).push(end));
        // No label twice.
        lemma_join_unique(da, db, c.labels, c1.labels, n, c2.labels);
        lemma_contains_split(da, db, short);
        lemma_outside(f, n, da, c.labels, c1.labels);
        lemma_outside(f, n, db, n, c2.labels);
        lemma_push_fresh(x, short);
        lemma_contains_split(da, db, end);
        lemma_outside(2, n, da, c.labels, c1.labels);
        lemma_outside(2, n, db, n, c2.labels);
        lemma_label_names_distinct(2, n, f, n, seq![]);
        lemma_contains_split(x, seq![short], end);
        assert(x.push(short) =~= x + seq![short]);
        lemma_push_fresh(x.push(short), end);
        // Every label drawn from the counter numbers used.
        lemma_drawn_widen(da, c.labels, c1.labels, c.labels, c2.labels);
        lemma_drawn_widen(db, n, c2.labels, c.labels, c2.labels);
        lemma_drawn_concat(da, db, c.labels, c2.labels);
        lemma_drawn_push(x, f, n, c.labels, c2.labels);
        lemma_drawn_push(x.push(short), 2, n, c.labels, c2.labels);
        // Every jump to a defined label.
        assert(d[x.len() as int] == short);
        assert(d[x.len() as int + 1] == end);
        assert forall|k: int| 0 <= k < da.len() implies d.contains(#[trigger] da[k]) by {
            assert(d[k] == da[k]);
        }
        assert forall|k: int| 0 <= k < db.len() implies d.contains(#[trigger] db[k]) by {
            assert(d[k + da.len()] == db[k]);
        }
        lemma_targets_widen(ca, da, d);
        lemma_targets_widen(cb, db, d);
        lemma_single_target(j1, d);
        assert forall|k: int| 0 <= k < tail.len() && (#[trigger] jump_target(tail[k])) is Some implies d.contains(
            jump_target(tail[k])->0,
        ) by {}
        lemma_targets_concat(ca, seq![j1], d);
        lemma_targets_concat(ca + seq![j1], cb, d);
        lemma_targets_concat(ca + seq![j1] + cb, tail, d);
    }
}

proof fn lemma_conditional_labels(e: Expression, c: Counters)
    requires
        e is Conditional,
    ensures
        labels_sound(lower_exp(e, c).0, c.labels, lower_exp(e, c).2.labels),
    decreases e, 0nat,
{
    if let Expression::Conditional { condition, exp1, exp2 } = e {
        let (code, v, c4) = lower_exp(e, c);
        let (cc, vc, c1) = lower_exp(*condition, c);
        let e2 = "exp2"@ + dec(c1.labels + 1);
        let end = "end"@ + dec(c1.labels + 2);
        let result = IrVal::Var("result"@ + dec(c1.labels + 3));
        let s1 = Counters { temps: c1.temps, labels: c1.labels + 3 };
        let (code1, v1, c2) = lower_exp(*exp1, s1);
        let (code2, v2, c3) = lower_exp(*exp2, c2);
        lemma_exp_labels(*condition, c);
        lemma_exp_labels(*exp1, s1);
        lemma_exp_labels(*exp2, c2);
        lemma_exp_grows(*condition, c);
        lemma_exp_grows(*exp1, s1);
        lemma_exp_grows(*exp2, c2);
        assert(e2 == numbered_label(3, c1.labels + 1));
        assert(end == numbered_label(4, c1.labels + 2));
        let part1 = seq![IrInstr::JumpIfZero(vc, e2)];
        let part2 = seq![IrInstr::Copy(v1, result), IrInstr::Jump(end), IrInstr::Label(e2)];
        let part3 = seq![IrInstr::Copy(v2, result), IrInstr::Label(end)];
        assert(code == cc + part1 + code1 + part2 + code2 + part3);
        lemma_defined_nolabels(part1);
        let q2 = seq![IrInstr::Copy(v1, result), IrInstr::Jump(end)];
        lemma_defined_nolabels(q2);
        lemma_defined_push(q2, IrInstr::Label(e2));
        assert(part2 == q2.push(IrInstr::Label(e2)));
        let q3 = seq![IrInstr::Copy(v2, result)];
        lemma_defined_nolabels(q3);
        lemma_defined_push(q3, IrInstr::Label(end));
        assert(part3 == q3.push(IrInstr::Label(end)));
        let dc = defined_labels(cc);
        let d1 = defined_labels(code1);
        let d2 = defined_labels(code2);
        lemma_defined_concat(cc, part1);
        lemma_defined_concat(cc + part1, code1);
        lemma_defined_concat(cc + part1 + code1, part2);
        lemma_defined_concat(cc + part1 + code1 + part2, code2);
        lemma_defined_concat(cc + part1 + code1 + part2 + code2, part3);
        let x = dc + d1;
        let y = x.push(e2) + d2;
        let d = defined_labels(code);
        assert(d =~= y.push(end));
        let lo = c.labels;
        let m = c1.labels;
        // No label twice.
        lemma_join_unique(dc, d1, lo, m, m + 3, c2.labels);
        lemma_contains_split(dc, d1, e2);
        lemma_outside(3, m + 1, dc, lo, m);
        lemma_outside(3, m + 1, d1, m + 3, c2.labels);
        lemma_push_fresh(x, e2);
        lemma_drawn_widen(dc, lo, m, lo, c2.labels);
        lemma_drawn_widen(d1, m + 3, c2.labels, lo, c2.labels);
        lemma_drawn_concat(dc, d1, lo, c2.labels);
        lemma_drawn_push(x, 3, m + 1, lo, c2.labels);
        lemma_join_unique(x.push(e2), d2, lo, c2.labels, c2.labels, c3.labels);
        lemma_contains_split(x.push(e2), d2, end);
        lemma_outside(4, m + 2, d2, c2.labels, c3.labels);
        assert(x.push(e2) =~= x + seq![e2]);
        lemma_contains_split(x, seq![e2], end);
        lemma_contains_split(dc, d1, end);
        lemma_outside(4, m + 2, dc, lo, m);
        lemma_outside(4, m + 2, d1, m + 3, c2.labels);
        lemma_label_names_distinct(4, m + 2, 3, m + 1, seq![]);
        lemma_push_fresh(y, end);
        // Every label drawn from the counter numbers used.
        lemma_drawn_widen(x.push(e2), lo, c2.labels, lo, c3.labels);
        lemma_drawn_widen(d2, c2.labels, c3.labels, lo, c3.labels);
        lemma_drawn_concat(x.push(e2), d2, lo, c3.labels);
        lemma_drawn_push(y, 4, m + 2, lo, c3.labels);
        // Every jump to a defined label.
        assert(d[x.len() as int] == e2);
        assert(d[y.len() as int] == end);
        assert forall|k: int| 0 <= k < dc.len() implies d.contains(#[trigger] dc[k]) by {
            assert(d[k] == dc[k]);
        }
        assert forall|k: int| 0 <= k < d1.len() implies d.contains(#[trigger] d1[k]) by {
            assert(d[k + dc.len()] == d1[k]);
        }
        assert forall|k: int| 0 <= k < d2.len() implies d.contains(#[trigger] d2[k]) by {
            assert(d[k + x.len() as int + 1] == d2[k]);
        }
        lemma_targets_widen(cc, dc, d);
        lemma_targets_widen(code1, d1, d);
        lemma_targets_widen(code2, d2, d);
        lemma_single_target(IrInstr::JumpIfZero(vc, e2), d);
        assert forall|k: int| 0 <= k < part2.len() && (#[trigger] jump_target(part2[k])) is Some implies d.contains(
            jump_target(part2[k])->0,
        ) by {}
        assert forall|k: int| 0 <= k < part3.len() && (#[trigger] jump_target(part3[k])) is Some implies d.contains(
            jump_target(part3[k])->0,
        ) by {}
        lemma_targets_concat(cc, part1, d);
        lemma_targets_concat(cc + part1, code1, d);
        lemma_targets_concat(cc + part1 + code1, part2, d);
        lemma_targets_concat(cc + part1 + code1 + part2, code2, d);
        lemma_targets_concat(cc + part1 + code1 + part2 + code2, part3, d);
    }
}

proof fn lemma_empty_sound(lo: nat, hi: nat)
    ensures
        labels_sound(Seq::<IrInstr>::empty(), lo, hi),
{
    assert(defined_labels(Seq::<IrInstr>::empty()) =~= Seq::<Seq<char>>::empty());
}

proof fn lemma_decl_labels(d: VariableDeclaration, c: Counters)
    ensures
        labels_sound(lower_decl(d, c).0, c.labels, lower_decl(d, c).1.labels),
{
    match d.initializer {
        Some(x) => {
            lemma_exp_labels(x, c);
            let (code, v, c1) = lower_exp(x, c);
            lemma_sound_push(code, IrInstr::Copy(v, IrVal::Var(d.name@)), c.labels, c1.labels);
        },
        None => lemma_empty_sound(c.labels, c.labels),
    }
}

/// The loop label of kind `kind` (0 `continue_`, 1 `break_`, 2 `start_`) of loop `id`.
pub open spec fn tag_label(tag: (nat, Seq<char>)) -> Seq<char> {
    if tag.0 == 0 {
        continue_label(tag.1)
    } else if tag.0 == 1 {
        break_label(tag.1)
    } else {
        start_label(tag.1)
    }
}

/// The counter numbers `(lo, hi]`.
pub open spec fn numbers(lo: nat, hi: nat) -> Set<nat> {
    Set::new(|n: nat| lo < n <= hi)
}

/// `l` is drawn from the counter with a number in `ns`, or is the loop label of a tag
/// in `tags`.
pub open spec fn label_ok(l: Seq<char>, ns: Set<nat>, tags: Seq<(nat, Seq<char>)>) -> bool {
    (exists|f: nat, n: nat| f < 6 && ns.contains(n) && l == #[trigger] numbered_label(f, n))
        || exists|k: int| 0 <= k < tags.len() && tags[k].0 < 3 && l == tag_label(#[trigger] tags[k])
}

/// `l` is the `continue_` or `break_` label of a loop of `env`.
pub open spec fn exit_of(l: Seq<char>, env: Seq<Seq<char>>) -> bool {
    exists|k: int|
        0 <= k < env.len() && (l == continue_label(#[trigger] env[k]) || l == break_label(env[k]))
}

/// Labels defined once, each drawn with a number of `ns` or tagged in `tags`; each
/// jump to a defined label, out of a loop of `env`, or to a label of `extra`.
pub open spec fn sound(
    code: Seq<IrInstr>,
    ns: Set<nat>,
    tags: Seq<(nat, Seq<char>)>,
    env: Seq<Seq<char>>,
    extra: Seq<Seq<char>>,
) -> bool {
    &&& defined_labels(code).no_duplicates()
    &&& forall|k: int|
        0 <= k < defined_labels(code).len() ==> label_ok(
            #[trigger] defined_labels(code)[k],
            ns,
            tags,
        )
    &&& forall|k: int|
        0 <= k < code.len() && (#[trigger] jump_target(code[k])) is Some ==> defined_labels(
            code,
        ).contains(jump_target(code[k])->0) || exit_of(jump_target(code[k])->0, env)
            || extra.contains(jump_target(code[k])->0)
}

proof fn lemma_prefix_injective(p: Seq<char>, a: Seq<char>, b: Seq<char>)
    requires
        p + a == p + b,
    ensures
        a == b,
{
    assert((p + a).subrange(p.len() as int, (p + a).len() as int) =~= a);
    assert((p + b).subrange(p.len() as int, (p + b).len() as int) =~= b);
}

proof fn lemma_tag_labels_distinct(t1: (nat, Seq<char>), t2: (nat, Seq<char>))
    requires
        t1.0 < 3,
        t2.0 < 3,
        tag_label(t1) == tag_label(t2),
    ensures
        t1 == t2,
{
    reveal_strlit("continue_");
    reveal_strlit("break_");
    reveal_strlit("start_");
    let l = tag_label(t1);
    if t1.0 == t2.0 {
        let p = if t1.0 == 0 {
            "continue_"@
        } else if t1.0 == 1 {
            "break_"@
        } else {
            "start_"@
        };
        lemma_prefix_injective(p, t1.1, t2.1);
    } else {
        assert(tag_label(t1)[0] == tag_label(t2)[0]);
        assert(false);
    }
}

proof fn lemma_ok_disjoint(
    l: Seq<char>,
    na: Set<nat>,
    ta: Seq<(nat, Seq<char>)>,
    nb: Set<nat>,
    tb: Seq<(nat, Seq<char>)>,
)
    requires
        label_ok(l, na, ta),
        na.disjoint(nb),
        (ta + tb).no_duplicates(),
    ensures
        !label_ok(l, nb, tb),
{
    if label_ok(l, nb, tb) {
        if exists|f: nat, n: nat| f < 6 && na.contains(n) && l == #[trigger] numbered_label(f, n) {
            let (f, n) = choose|f: nat, n: nat|
                f < 6 && na.contains(n) && l == #[trigger] numbered_label(f, n);
            if exists|f: nat, n: nat| f < 6 && nb.contains(n) && l == #[trigger] numbered_label(f, n) {
                let (f2, n2) = choose|f2: nat, n2: nat|
                    f2 < 6 && nb.contains(n2) && l == #[trigger] numbered_label(f2, n2);
                lemma_label_names_distinct(f, n, f2, n2, seq![]);
            } else {
                let k = choose|k: int| 0 <= k < tb.len() && tb[k].0 < 3 && l == tag_label(#[trigger] tb[k]);
                lemma_label_names_distinct(f, n, f, n, tb[k].1);
            }
        } else {
            let i = choose|k: int| 0 <= k < ta.len() && ta[k].0 < 3 && l == tag_label(#[trigger] ta[k]);
            if exists|f: nat, n: nat| f < 6 && nb.contains(n) && l == #[trigger] numbered_label(f, n) {
                let (f2, n2) = choose|f2: nat, n2: nat|
                    f2 < 6 && nb.contains(n2) && l == #[trigger] numbered_label(f2, n2);
                lemma_label_names_distinct(f2, n2, f2, n2, ta[i].1);
            } else {
                let j = choose|k: int| 0 <= k < tb.len() && tb[k].0 < 3 && l == tag_label(#[trigger] tb[k]);
                lemma_tag_labels_distinct(ta[i], tb[j]);
                assert((ta + tb)[i] == ta[i]);
                assert((ta + tb)[ta.len() + j] == tb[j]);
            }
        }
    }
}

proof fn lemma_ok_widen(
    l: Seq<char>,
    na: Set<nat>,
    ta: Seq<(nat, Seq<char>)>,
    ns: Set<nat>,
    t: Seq<(nat, Seq<char>)>,
)
    requires
        label_ok(l, na, ta),
        na.subset_of(ns),
        forall|k: int| 0 <= k < ta.len() ==> t.contains(#[trigger] ta[k]),
    ensures
        label_ok(l, ns, t),
{
    if exists|f: nat, n: nat| f < 6 && na.contains(n) && l == #[trigger] numbered_label(f, n) {
        let (f, n) = choose|f: nat, n: nat|
            f < 6 && na.contains(n) && l == #[trigger] numbered_label(f, n);
        assert(ns.contains(n));
        assert(numbered_label(f, n) == l);
    } else {
        let i = choose|k: int| 0 <= k < ta.len() && ta[k].0 < 3 && l == tag_label(#[trigger] ta[k]);
        assert(t.contains(ta[i]));
        let j = choose|j: int| 0 <= j < t.len() && t[j] == ta[i];
        assert(t[j].0 < 3 && l == tag_label(t[j]));
    }
}

/// Joining two sound pieces with disjoint counter numbers and distinct tags.
proof fn lemma_join(
    a: Seq<IrInstr>,
    na: Set<nat>,
    ta: Seq<(nat, Seq<char>)>,
    ea: Seq<Seq<char>>,
    b: Seq<IrInstr>,
    nb: Set<nat>,
    tb: Seq<(nat, Seq<char>)>,
    eb: Seq<Seq<char>>,
    env: Seq<Seq<char>>,
)
    requires
        sound(a, na, ta, env, ea),
        sound(b, nb, tb, env, eb),
        na.disjoint(nb),
        (ta + tb).no_duplicates(),
    ensures
        sound(a + b, na + nb, ta + tb, env, ea + eb),
{
    let da = defined_labels(a);
    let db = defined_labels(b);
    lemma_defined_concat(a, b);
    let d = da + db;
    let t = ta + tb;
    let ns = na + nb;
    assert forall|k: int| 0 <= k < ta.len() implies t.contains(#[trigger] ta[k]) by {
        assert(t[k] == ta[k]);
    }
    assert forall|k: int| 0 <= k < tb.len() implies t.contains(#[trigger] tb[k]) by {
        assert(t[k + ta.len()] == tb[k]);
    }
    assert forall|i: int, j: int| 0 <= i < j < d.len() implies d[i] != d[j] by {
        if i < da.len() && j >= da.len() {
            assert(d[i] == da[i]);
            assert(d[j] == db[j - da.len()]);
            assert(label_ok(da[i], na, ta));
            lemma_ok_disjoint(da[i], na, ta, nb, tb);
        } else if j < da.len() {
            assert(d[i] == da[i]);
            assert(d[j] == da[j]);
        } else {
            assert(d[i] == db[i - da.len()]);
            assert(d[j] == db[j - da.len()]);
        }
    }
    assert forall|k: int| 0 <= k < d.len() implies label_ok(#[trigger] d[k], ns, t) by {
        if k < da.len() {
            assert(d[k] == da[k]);
            assert(label_ok(da[k], na, ta));
            lemma_ok_widen(da[k], na, ta, ns, t);
        } else {
            assert(d[k] == db[k - da.len()]);
            assert(label_ok(db[k - da.len()], nb, tb));
            lemma_ok_widen(db[k - da.len()], nb, tb, ns, t);
        }
    }
    assert forall|k: int|
        0 <= k < (a + b).len() && (#[trigger] jump_target((a + b)[k])) is Some implies d.contains(
        jump_target((a + b)[k])->0,
    ) || exit_of(jump_target((a + b)[k])->0, env) || (ea + eb).contains(
        jump_target((a + b)[k])->0,
    ) by {
        let x = jump_target((a + b)[k])->0;
        if k < a.len() {
            assert((a + b)[k] == a[k]);
            if da.contains(x) {
                let i = choose|i: int| 0 <= i < da.len() && da[i] == x;
                assert(d[i] == x);
            }
            if ea.contains(x) {
                let i = choose|i: int| 0 <= i < ea.len() && ea[i] == x;
                assert((ea + eb)[i] == x);
            }
        } else {
            assert((a + b)[k] == b[k - a.len()]);
            if db.contains(x) {
                let i = choose|i: int| 0 <= i < db.len() && db[i] == x;
                assert(d[i + da.len()] == x);
            }
            if eb.contains(x) {
                let i = choose|i: int| 0 <= i < eb.len() && eb[i] == x;
                assert((ea + eb)[i + ea.len()] == x);
            }
        }
    }
}

pub open spec fn no_tags() -> Seq<(nat, Seq<char>)> {
    Seq::empty()
}

pub open spec fn no_labels() -> Seq<Seq<char>> {
    Seq::empty()
}

proof fn lemma_sound_of_exp(code: Seq<IrInstr>, lo: nat, hi: nat, env: Seq<Seq<char>>)
    requires
        labels_sound(code, lo, hi),
    ensures
        sound(code, numbers(lo, hi), no_tags(), env, no_labels()),
{
    let d = defined_labels(code);
    assert forall|k: int| 0 <= k < d.len() implies label_ok(#[trigger] d[k], numbers(lo, hi), no_tags()) by {
        assert(drawn_between(d[k], lo, hi));
        let (f, n) = choose|f: nat, n: nat| f < 6 && lo < n <= hi && d[k] == #[trigger] numbered_label(f, n);
        assert(numbers(lo, hi).contains(n));
    }
}

proof fn lemma_exp_sound(e: Expression, c: Counters, env: Seq<Seq<char>>)
    ensures
        sound(lower_exp(e, c).0, numbers(c.labels, lower_exp(e, c).2.labels), no_tags(), env, no_labels()),
{
    lemma_exp_labels(e, c);
    lemma_sound_of_exp(lower_exp(e, c).0, c.labels, lower_exp(e, c).2.labels, env);
}

proof fn lemma_piece_label(l: Seq<char>, ns: Set<nat>, tags: Seq<(nat, Seq<char>)>, env: Seq<Seq<char>>)
    requires
        label_ok(l, ns, tags),
    ensures
        sound(seq![IrInstr::Label(l)], ns, tags, env, no_labels()),
{
    lemma_defined_push(Seq::<IrInstr>::empty(), IrInstr::Label(l));
    lemma_defined_nolabels(Seq::<IrInstr>::empty());
    assert(seq![IrInstr::Label(l)] == Seq::<IrInstr>::empty().push(IrInstr::Label(l)));
    assert(defined_labels(seq![IrInstr::Label(l)]) =~= seq![l]);
}

proof fn lemma_piece_numbered(f: nat, n: nat, env: Seq<Seq<char>>)
    requires
        f < 6,
    ensures
        sound(seq![IrInstr::Label(numbered_label(f, n))], set![n], no_tags(), env, no_labels()),
{
    assert(set![n].contains(n));
    assert(label_ok(numbered_label(f, n), set![n], no_tags()));
    lemma_piece_label(numbered_label(f, n), set![n], no_tags(), env);
}

proof fn lemma_piece_tagged(tag: (nat, Seq<char>), env: Seq<Seq<char>>)
    requires
        tag.0 < 3,
    ensures
        sound(seq![IrInstr::Label(tag_label(tag))], Set::empty(), seq![tag], env, no_labels()),
{
    assert(seq![tag][0] == tag);
    assert(label_ok(tag_label(tag), Set::empty(), seq![tag]));
    lemma_piece_label(tag_label(tag), Set::empty(), seq![tag], env);
}

proof fn lemma_piece_jump(x: IrInstr, env: Seq<Seq<char>>)
    requires
        !(x is Label),
        jump_target(x) is Some,
    ensures
        sound(seq![x], Set::empty(), no_tags(), env, seq![jump_target(x)->0]),
{
    lemma_defined_nolabels(seq![x]);
    assert(seq![x][0] == x);
    assert(seq![jump_target(x)->0][0] == jump_target(x)->0);
}

/// Moving a loop out of the environment: jumps out of it become jumps to its labels.
proof fn lemma_shift(
    code: Seq<IrInstr>,
    ns: Set<nat>,
    t: Seq<(nat, Seq<char>)>,
    env: Seq<Seq<char>>,
    id: Seq<char>,
)
    requires
        sound(code, ns, t, env.push(id), no_labels()),
    ensures
        sound(code, ns, t, env, seq![continue_label(id), break_label(id)]),
{
    let extra = seq![continue_label(id), break_label(id)];
    assert forall|k: int|
        0 <= k < code.len() && (#[trigger] jump_target(code[k])) is Some implies defined_labels(
        code,
    ).contains(jump_target(code[k])->0) || exit_of(jump_target(code[k])->0, env)
        || extra.contains(jump_target(code[k])->0) by {
        let x = jump_target(code[k])->0;
        if exit_of(x, env.push(id)) {
            let j = choose|j: int|
                0 <= j < env.push(id).len() && (x == continue_label(#[trigger] env.push(id)[j]) || x
                    == break_label(env.push(id)[j]));
            if j < env.len() {
                assert(env.push(id)[j] == env[j]);
            } else {
                assert(env.push(id)[j] == id);
                assert(extra[0] == continue_label(id));
                assert(extra[1] == break_label(id));
            }
        }
    }
}

/// Jumps to labels of `extra` that the code defines, or that leave loops of `env`,
/// need no `extra`.
proof fn lemma_close(
    code: Seq<IrInstr>,
    ns: Set<nat>,
    t: Seq<(nat, Seq<char>)>,
    env: Seq<Seq<char>>,
    extra: Seq<Seq<char>>,
)
    requires
        sound(code, ns, t, env, extra),
        forall|k: int| 0 <= k < extra.len() ==> defined_labels(code).contains(#[trigger] extra[k]) || exit_of(extra[k], env),
    ensures
        sound(code, ns, t, env, no_labels()),
{
    assert forall|k: int|
        0 <= k < code.len() && (#[trigger] jump_target(code[k])) is Some implies defined_labels(
        code,
    ).contains(jump_target(code[k])->0) || exit_of(jump_target(code[k])->0, env)
        || no_labels().contains(jump_target(code[k])->0) by {
        let x = jump_target(code[k])->0;
        if extra.contains(x) {
            let j = choose|j: int| 0 <= j < extra.len() && extra[j] == x;
            assert(defined_labels(code).contains(extra[j]) || exit_of(extra[j], env));
        }
    }
}

proof fn lemma_weaken(
    code: Seq<IrInstr>,
    ns: Set<nat>,
    t: Seq<(nat, Seq<char>)>,
    env: Seq<Seq<char>>,
    extra: Seq<Seq<char>>,
    ns2: Set<nat>,
    t2: Seq<(nat, Seq<char>)>,
)
    requires
        sound(code, ns, t, env, extra),
        ns.subset_of(ns2),
        t == t2,
    ensures
        sound(code, ns2, t2, env, extra),
{
    let d = defined_labels(code);
    assert forall|k: int| 0 <= k < d.len() implies label_ok(#[trigger] d[k], ns2, t2) by {
        assert(label_ok(d[k], ns, t));
        assert forall|j: int| 0 <= j < t.len() implies t2.contains(#[trigger] t[j]) by {
            assert(t2[j] == t[j]);
        }
        lemma_ok_widen(d[k], ns, t, ns2, t2);
    }
}

proof fn lemma_defined_has(code: Seq<IrInstr>, k: int, l: Seq<char>)
    requires
        0 <= k < code.len(),
        code[k] == IrInstr::Label(l),
    ensures
        defined_labels(code).contains(l),
    decreases code.len(),
{
    if k == code.len() - 1 {
        assert(defined_labels(code) == defined_labels(code.drop_last()).push(l));
        assert(defined_labels(code)[defined_labels(code.drop_last()).len() as int] == l);
    } else {
        assert(code.drop_last()[k] == code[k]);
        lemma_defined_has(code.drop_last(), k, l);
        let d = defined_labels(code.drop_last());
        let j = choose|j: int| 0 <= j < d.len() && d[j] == l;
        match code.last() {
            IrInstr::Label(m) => assert(defined_labels(code)[j] == l),
            _ => {},
        }
    }
}

proof fn lemma_nodup_part(t: Seq<(nat, Seq<char>)>, i: int, j: int)
    requires
        t.no_duplicates(),
        0 <= i <= j <= t.len(),
    ensures
        t.subrange(i, j).no_duplicates(),
{
    assert forall|a: int, b: int| 0 <= a < b < t.subrange(i, j).len() implies t.subrange(i, j)[a]
        != t.subrange(i, j)[b] by {
        assert(t.subrange(i, j)[a] == t[a + i]);
        assert(t.subrange(i, j)[b] == t[b + i]);
    }
}

/// The tags of the loop labels that lowering a statement defines, in order:
/// `(0, id)` for `continue_<id>`, `(1, id)` for `break_<id>`, `(2, id)` for `start_<id>`.
pub open spec fn loop_tags(s: Statement) -> Seq<(nat, Seq<char>)>
    decreases s,
{
    match s {
        Statement::If { then, else_statement, .. } => loop_tags(*then) + match else_statement {
            Some(x) => loop_tags(*x),
            None => no_tags(),
        },
        Statement::Compound(block) => items_tags(block.0@),
        Statement::While { body, identifier, .. } => seq![(0nat, loop_id(identifier))] + loop_tags(
            *body,
        ) + seq![(1nat, loop_id(identifier))],
        Statement::DoWhile { body, identifier, .. } => seq![(2nat, loop_id(identifier))]
            + loop_tags(*body) + seq![(0nat, loop_id(identifier)), (1nat, loop_id(identifier))],
        Statement::For { body, identifier, .. } => seq![(2nat, loop_id(identifier))] + loop_tags(
            *body,
        ) + seq![(0nat, loop_id(identifier)), (1nat, loop_id(identifier))],
        _ => no_tags(),
    }
}

pub open spec fn item_tags(item: BlockItem) -> Seq<(nat, Seq<char>)>
    decreases item,
{
    match item {
        BlockItem::S(s) => loop_tags(s),
        BlockItem::D(_) => no_tags(),
    }
}

pub open spec fn items_tags(items: Seq<BlockItem>) -> Seq<(nat, Seq<char>)>
    decreases items,
{
    if items.len() == 0 {
        no_tags()
    } else {
        items_tags(items.subrange(0, items.len() - 1)) + item_tags(items[items.len() - 1])
    }
}

/// Each `break` and `continue` of `s` names a loop around it: one of `s`, or one of
/// `env`, the loops around `s`.
pub open spec fn jumps_bound(s: Statement, env: Seq<Seq<char>>) -> bool
    decreases s,
{
    match s {
        Statement::Break { label } => env.contains(loop_id(label)),
        Statement::Continue { label } => env.contains(loop_id(label)),
        Statement::If { then, else_statement, .. } => jumps_bound(*then, env) && match
            else_statement {
            Some(x) => jumps_bound(*x, env),
            None => true,
        },
        Statement::Compound(block) => items_jumps_bound(block.0@, env),
        Statement::While { body, identifier, .. } => jumps_bound(
            *body,
            env.push(loop_id(identifier)),
        ),
        Statement::DoWhile { body, identifier, .. } => jumps_bound(
            *body,
            env.push(loop_id(identifier)),
        ),
        Statement::For { body, identifier, .. } => jumps_bound(
            *body,
            env.push(loop_id(identifier)),
        ),
        _ => true,
    }
}

pub open spec fn item_jumps_bound(item: BlockItem, env: Seq<Seq<char>>) -> bool
    decreases item,
{
    match item {
        BlockItem::S(s) => jumps_bound(s, env),
        BlockItem::D(_) => true,
    }
}

pub open spec fn items_jumps_bound(items: Seq<BlockItem>, env: Seq<Seq<char>>) -> bool
    decreases items,
{
    forall|k: int| 0 <= k < items.len() ==> item_jumps_bound(#[trigger] items[k], env)
}

/// Joins a piece without loop labels on the right.
proof fn lemma_join_plain(
    a: Seq<IrInstr>,
    na: Set<nat>,
    ta: Seq<(nat, Seq<char>)>,
    ea: Seq<Seq<char>>,
    b: Seq<IrInstr>,
    nb: Set<nat>,
    eb: Seq<Seq<char>>,
    env: Seq<Seq<char>>,
)
    requires
        sound(a, na, ta, env, ea),
        sound(b, nb, no_tags(), env, eb),
        na.disjoint(nb),
        ta.no_duplicates(),
    ensures
        sound(a + b, na + nb, ta, env, ea + eb),
{
    assert(ta + no_tags() =~= ta);
    lemma_join(a, na, ta, ea, b, nb, no_tags(), eb, env);
}

proof fn lemma_decl_sound(d: VariableDeclaration, c: Counters, env: Seq<Seq<char>>)
    ensures
        sound(lower_decl(d, c).0, numbers(c.labels, lower_decl(d, c).1.labels), no_tags(), env, no_labels()),
{
    lemma_decl_labels(d, c);
    lemma_sound_of_exp(lower_decl(d, c).0, c.labels, lower_decl(d, c).1.labels, env);
}

proof fn lemma_finish(
    code: Seq<IrInstr>,
    ns: Set<nat>,
    t: Seq<(nat, Seq<char>)>,
    env: Seq<Seq<char>>,
    extra: Seq<Seq<char>>,
    lo: nat,
    hi: nat,
    tags: Seq<(nat, Seq<char>)>,
)
    requires
        sound(code, ns, t, env, extra),
        ns.subset_of(numbers(lo, hi)),
        t == tags,
        forall|k: int| 0 <= k < extra.len() ==> defined_labels(code).contains(#[trigger] extra[k]) || exit_of(extra[k], env),
    ensures
        sound(code, numbers(lo, hi), tags, env, no_labels()),
{
    lemma_close(code, ns, t, env, extra);
    lemma_weaken(code, ns, t, env, no_labels(), numbers(lo, hi), tags);
}

#[verifier::rlimit(100)]
proof fn lemma_while_sound(s: Statement, c: Counters, env: Seq<Seq<char>>)
    requires
        s is While,
        stmt_wf(s),
        loop_tags(s).no_duplicates(),
        jumps_bound(s, env),
    ensures
        sound(lower_stmt(s, c).0, numbers(c.labels, lower_stmt(s, c).1.labels), loop_tags(s), env, no_labels()),
    decreases s, 0nat,
{
    if let Statement::While { condition, body, identifier } = s {
        let id = loop_id(identifier);
        let (code, c2) = lower_stmt(s, c);
        let (cc, vc, c1) = lower_exp(condition, c);
        let cb = lower_stmt(*body, c1).0;
        let cont = continue_label(id);
        let brk = break_label(id);
        let t0 = (0nat, id);
        let t1 = (1nat, id);
        assert(tag_label(t0) == cont);
        assert(tag_label(t1) == brk);
        let tb = loop_tags(*body);
        let all = loop_tags(s);
        assert(all == seq![t0] + tb + seq![t1]);
        assert(all.subrange(1, 1 + tb.len() as int) =~= tb);
        lemma_nodup_part(all, 1, 1 + tb.len() as int);
        assert(all.subrange(0, 1 + tb.len() as int) =~= seq![t0] + tb);
        lemma_nodup_part(all, 0, 1 + tb.len() as int);
        assert(seq![t0].no_duplicates());
        lemma_exp_grows(condition, c);
        lemma_stmt_grows(*body, c1);
        let part0 = seq![IrInstr::Label(cont)];
        let pj = seq![IrInstr::JumpIfZero(vc, brk)];
        let pk = seq![IrInstr::Jump(cont)];
        let pl = seq![IrInstr::Label(brk)];
        lemma_piece_tagged(t0, env);
        lemma_exp_sound(condition, c, env);
        lemma_piece_jump(IrInstr::JumpIfZero(vc, brk), env);
        lemma_stmt_sound(*body, c1, env.push(id));
        lemma_shift(cb, numbers(c1.labels, c2.labels), tb, env, id);
        lemma_piece_jump(IrInstr::Jump(cont), env);
        lemma_piece_tagged(t1, env);
        let e0 = Set::<nat>::empty();
        let nc = numbers(c.labels, c1.labels);
        let nb = numbers(c1.labels, c2.labels);
        let x1 = seq![brk];
        let x2 = seq![cont, brk];
        let x3 = seq![cont];
        lemma_join_plain(part0, e0, seq![t0], no_labels(), cc, nc, no_labels(), env);
        assert((e0 + nc).disjoint(e0));
        lemma_join_plain(part0 + cc, e0 + nc, seq![t0], no_labels() + no_labels(), pj, e0, x1, env);
        assert((e0 + nc + e0).disjoint(nb));
        lemma_join(part0 + cc + pj, e0 + nc + e0, seq![t0], no_labels() + no_labels() + x1, cb, nb, tb, x2, env);
        assert((e0 + nc + e0 + nb).disjoint(e0));
        lemma_join_plain(part0 + cc + pj + cb, e0 + nc + e0 + nb, seq![t0] + tb, no_labels() + no_labels() + x1 + x2, pk, e0, x3, env);
        lemma_join(
            part0 + cc + pj + cb + pk,
            e0 + nc + e0 + nb + e0,
            seq![t0] + tb,
            no_labels() + no_labels() + x1 + x2 + x3,
            pl,
            e0,
            seq![t1],
            no_labels(),
            env,
        );
        let whole = part0 + cc + pj + cb + pk + pl;
        assert(code =~= whole);
        let extra = no_labels() + no_labels() + x1 + x2 + x3 + no_labels();
        assert(whole[0] == IrInstr::Label(cont));
        lemma_defined_has(whole, 0, cont);
        assert(whole[whole.len() - 1] == IrInstr::Label(brk));
        lemma_defined_has(whole, whole.len() - 1, brk);
        assert(extra =~= seq![brk, cont, brk, cont]);
        lemma_finish(whole, e0 + nc + e0 + nb + e0 + e0, seq![t0] + tb + seq![t1], env, extra, c.labels, c2.labels, all);
    }
}

proof fn lemma_piece_plain(x: IrInstr, env: Seq<Seq<char>>)
    requires
        !(x is Label),
        jump_target(x) is None,
    ensures
        sound(seq![x], Set::empty(), no_tags(), env, no_labels()),
{
    lemma_defined_nolabels(seq![x]);
    assert(seq![x][0] == x);
}

proof fn lemma_empty_code(ns: Set<nat>, env: Seq<Seq<char>>, extra: Seq<Seq<char>>)
    ensures
        sound(Seq::<IrInstr>::empty(), ns, no_tags(), env, extra),
{
    lemma_defined_nolabels(Seq::<IrInstr>::empty());
}

proof fn lemma_opt_sound(e: Option<Expression>, c: Counters, env: Seq<Seq<char>>)
    ensures
        sound(lower_opt(e, c).0, numbers(c.labels, lower_opt(e, c).1.labels), no_tags(), env, no_labels()),
{
    match e {
        Some(x) => lemma_exp_sound(x, c, env),
        None => lemma_empty_code(numbers(c.labels, c.labels), env, no_labels()),
    }
}

proof fn lemma_for_init_sound(init: ForInit, c: Counters, env: Seq<Seq<char>>)
    ensures
        sound(lower_for_init(init, c).0, numbers(c.labels, lower_for_init(init, c).1.labels), no_tags(), env, no_labels()),
{
    match init {
        ForInit::InitDecl(d) => lemma_decl_sound(d, c, env),
        ForInit::InitExp(e) => lemma_opt_sound(e, c, env),
    }
}

proof fn lemma_for_condition_sound(condition: Option<Expression>, id: Seq<char>, c: Counters, env: Seq<Seq<char>>)
    ensures
        sound(
            lower_for_condition(condition, id, c).0,
            numbers(c.labels, lower_for_condition(condition, id, c).1.labels),
            no_tags(),
            env,
            seq![break_label(id)],
        ),
{
    match condition {
        Some(x) => {
            let (code, v, c1) = lower_exp(x, c);
            lemma_exp_sound(x, c, env);
            lemma_piece_jump(IrInstr::JumpIfZero(v, break_label(id)), env);
            assert(numbers(c.labels, c1.labels).disjoint(Set::<nat>::empty()));
            lemma_join_plain(code, numbers(c.labels, c1.labels), no_tags(), no_labels(), seq![IrInstr::JumpIfZero(v, break_label(id))], Set::empty(), seq![break_label(id)], env);
            assert(code.push(IrInstr::JumpIfZero(v, break_label(id))) =~= code + seq![IrInstr::JumpIfZero(v, break_label(id))]);
            assert(no_labels() + seq![break_label(id)] =~= seq![break_label(id)]);
            assert(numbers(c.labels, c1.labels) + Set::<nat>::empty() =~= numbers(c.labels, c1.labels));
        },
        None => lemma_empty_code(numbers(c.labels, c.labels), env, seq![break_label(id)]),
    }
}

proof fn lemma_exit(id: Seq<char>, env: Seq<Seq<char>>)
    requires
        env.contains(id),
    ensures
        exit_of(continue_label(id), env),
        exit_of(break_label(id), env),
{
    let k = choose|k: int| 0 <= k < env.len() && env[k] == id;
    assert(continue_label(env[k]) == continue_label(id));
}

#[verifier::rlimit(100)]
proof fn lemma_if_sound(s: Statement, c: Counters, env: Seq<Seq<char>>)
    requires
        s is If,
        stmt_wf(s),
        loop_tags(s).no_duplicates(),
        jumps_bound(s, env),
    ensures
        sound(lower_stmt(s, c).0, numbers(c.labels, lower_stmt(s, c).1.labels), loop_tags(s), env, no_labels()),
    decreases s, 0nat,
{
    if let Statement::If { condition, then, else_statement } = s {
        let (code, c4) = lower_stmt(s, c);
        let (cc, vc, c1) = lower_exp(condition, c);
        let m = c1.labels;
        let end = "end"@ + dec(m + 1);
        assert(end == numbered_label(4, m + 1));
        lemma_exp_grows(condition, c);
        lemma_exp_sound(condition, c, env);
        let e0 = Set::<nat>::empty();
        let nc = numbers(c.labels, m);
        match else_statement {
            None => {
                let s1 = Counters { temps: c1.temps, labels: m + 1 };
                let (ct, c2) = lower_stmt(*then, s1);
                let tt = loop_tags(*then);
                assert(loop_tags(s) =~= tt);
                lemma_stmt_sound(*then, s1, env);
                lemma_stmt_grows(*then, s1);
                let pj = seq![IrInstr::JumpIfZero(vc, end)];
                let pl = seq![IrInstr::Label(end)];
                lemma_piece_jump(IrInstr::JumpIfZero(vc, end), env);
                lemma_piece_numbered(4, m + 1, env);
                let nt = numbers(m + 1, c2.labels);
                assert(nc.disjoint(e0));
                lemma_join_plain(cc, nc, no_tags(), no_labels(), pj, e0, seq![end], env);
                assert((nc + e0).disjoint(nt));
                assert(no_tags() + tt =~= tt);
                lemma_join(cc + pj, nc + e0, no_tags(), no_labels() + seq![end], ct, nt, tt, no_labels(), env);
                assert((nc + e0 + nt).disjoint(set![m + 1]));
                lemma_join_plain(cc + pj + ct, nc + e0 + nt, tt, no_labels() + seq![end] + no_labels(), pl, set![m + 1], no_labels(), env);
                let whole = cc + pj + ct + pl;
                assert(code =~= whole);
                assert(whole[whole.len() - 1] == IrInstr::Label(end));
                lemma_defined_has(whole, whole.len() - 1, end);
                let extra = no_labels() + seq![end] + no_labels() + no_labels();
                assert(extra =~= seq![end]);
                assert((nc + e0 + nt + set![m + 1]).subset_of(numbers(c.labels, c2.labels)));
                lemma_finish(whole, nc + e0 + nt + set![m + 1], tt, env, extra, c.labels, c2.labels, loop_tags(s));
            },
            Some(other) => {
                let else_label = "else"@ + dec(m + 2);
                assert(else_label == numbered_label(5, m + 2));
                let s1 = Counters { temps: c1.temps, labels: m + 2 };
                let (ct, c2) = lower_stmt(*then, s1);
                let (ce, c3) = lower_stmt(*other, c2);
                let tt = loop_tags(*then);
                let te = loop_tags(*other);
                assert(loop_tags(s) == tt + te);
                lemma_nodup_part(tt + te, 0, tt.len() as int);
                assert((tt + te).subrange(0, tt.len() as int) =~= tt);
                lemma_nodup_part(tt + te, tt.len() as int, (tt + te).len() as int);
                assert((tt + te).subrange(tt.len() as int, (tt + te).len() as int) =~= te);
                lemma_stmt_sound(*then, s1, env);
                lemma_stmt_grows(*then, s1);
                lemma_stmt_sound(*other, c2, env);
                lemma_stmt_grows(*other, c2);
                let pj = seq![IrInstr::JumpIfZero(vc, else_label)];
                let pk = seq![IrInstr::Jump(end)];
                let pe = seq![IrInstr::Label(else_label)];
                let pl = seq![IrInstr::Label(end)];
                lemma_piece_jump(IrInstr::JumpIfZero(vc, else_label), env);
                lemma_piece_jump(IrInstr::Jump(end), env);
                lemma_piece_numbered(5, m + 2, env);
                lemma_piece_numbered(4, m + 1, env);
                let nt = numbers(m + 2, c2.labels);
                let ne = numbers(c2.labels, c3.labels);
                assert(nc.disjoint(e0));
                lemma_join_plain(cc, nc, no_tags(), no_labels(), pj, e0, seq![else_label], env);
                assert((nc + e0).disjoint(nt));
                assert(no_tags() + tt =~= tt);
                lemma_join(cc + pj, nc + e0, no_tags(), no_labels() + seq![else_label], ct, nt, tt, no_labels(), env);
                let n3 = nc + e0 + nt;
                let x3 = no_labels() + seq![else_label] + no_labels();
                assert(n3.disjoint(e0));
                lemma_join_plain(cc + pj + ct, n3, tt, x3, pk, e0, seq![end], env);
                assert((n3 + e0).disjoint(set![m + 2]));
                lemma_join_plain(cc + pj + ct + pk, n3 + e0, tt, x3 + seq![end], pe, set![m + 2], no_labels(), env);
                let n5 = n3 + e0 + set![m + 2];
                assert(n5.disjoint(ne));
                lemma_join(cc + pj + ct + pk + pe, n5, tt, x3 + seq![end] + no_labels(), ce, ne, te, no_labels(), env);
                assert((n5 + ne).disjoint(set![m + 1]));
                lemma_join_plain(cc + pj + ct + pk + pe + ce, n5 + ne, tt + te, x3 + seq![end] + no_labels() + no_labels(), pl, set![m + 1], no_labels(), env);
                let whole = cc + pj + ct + pk + pe + ce + pl;
                assert(code =~= whole);
                assert(whole[whole.len() - 1] == IrInstr::Label(end));
                lemma_defined_has(whole, whole.len() - 1, end);
                let ie = (cc.len() + 1 + ct.len() + 1) as int;
                assert(whole[ie] == IrInstr::Label(else_label));
                lemma_defined_has(whole, ie, else_label);
                let extra = x3 + seq![end] + no_labels() + no_labels() + no_labels();
                assert(extra =~= seq![else_label, end]);
                assert((n5 + ne + set![m + 1]).subset_of(numbers(c.labels, c3.labels)));
                lemma_finish(whole, n5 + ne + set![m + 1], tt + te, env, extra, c.labels, c3.labels, loop_tags(s));
            },
        }
    }
}

#[verifier::rlimit(100)]
proof fn lemma_do_while_sound(s: Statement, c: Counters, env: Seq<Seq<char>>)
    requires
        s is DoWhile,
        stmt_wf(s),
        loop_tags(s).no_duplicates(),
        jumps_bound(s, env),
    ensures
        sound(lower_stmt(s, c).0, numbers(c.labels, lower_stmt(s, c).1.labels), loop_tags(s), env, no_labels()),
    decreases s, 0nat,
{
    if let Statement::DoWhile { body, condition, identifier } = s {
        let id = loop_id(identifier);
        let (code, c2) = lower_stmt(s, c);
        let (cb, c1) = lower_stmt(*body, c);
        let (cc, vc, c2b) = lower_exp(condition, c1);
        let cont = continue_label(id);
        let brk = break_label(id);
        let start = start_label(id);
        let t0 = (0nat, id);
        let t1 = (1nat, id);
        let t2 = (2nat, id);
        assert(tag_label(t0) == cont);
        assert(tag_label(t1) == brk);
        assert(tag_label(t2) == start);
        let tb = loop_tags(*body);
        let all = loop_tags(s);
        assert(all == seq![t2] + tb + seq![t0, t1]);
        assert(all.subrange(1, 1 + tb.len() as int) =~= tb);
        lemma_nodup_part(all, 1, 1 + tb.len() as int);
        assert(all.subrange(0, 1 + tb.len() as int) =~= seq![t2] + tb);
        lemma_nodup_part(all, 0, 1 + tb.len() as int);
        assert(all.subrange(0, 2 + tb.len() as int) =~= seq![t2] + tb + seq![t0]);
        lemma_nodup_part(all, 0, 2 + tb.len() as int);
        lemma_stmt_grows(*body, c);
        lemma_exp_grows(condition, c1);
        let part0 = seq![IrInstr::Label(start)];
        let pc = seq![IrInstr::Label(cont)];
        let pj = seq![IrInstr::JumpIfNotZero(vc, start)];
        let pl = seq![IrInstr::Label(brk)];
        lemma_piece_tagged(t2, env);
        lemma_stmt_sound(*body, c, env.push(id));
        lemma_shift(cb, numbers(c.labels, c1.labels), tb, env, id);
        lemma_piece_tagged(t0, env);
        lemma_exp_sound(condition, c1, env);
        lemma_piece_jump(IrInstr::JumpIfNotZero(vc, start), env);
        lemma_piece_tagged(t1, env);
        let e0 = Set::<nat>::empty();
        let nb = numbers(c.labels, c1.labels);
        let nc = numbers(c1.labels, c2.labels);
        assert(e0.disjoint(nb));
        lemma_join(part0, e0, seq![t2], no_labels(), cb, nb, tb, seq![cont, brk], env);
        assert((e0 + nb).disjoint(e0));
        lemma_join(part0 + cb, e0 + nb, seq![t2] + tb, no_labels() + seq![cont, brk], pc, e0, seq![t0], no_labels(), env);
        assert((e0 + nb + e0).disjoint(nc));
        lemma_join_plain(part0 + cb + pc, e0 + nb + e0, seq![t2] + tb + seq![t0], no_labels() + seq![cont, brk] + no_labels(), cc, nc, no_labels(), env);
        let n4 = e0 + nb + e0 + nc;
        let x4 = no_labels() + seq![cont, brk] + no_labels() + no_labels();
        assert(n4.disjoint(e0));
        lemma_join_plain(part0 + cb + pc + cc, n4, seq![t2] + tb + seq![t0], x4, pj, e0, seq![start], env);
        assert((n4 + e0).disjoint(e0));
        assert(seq![t2] + tb + seq![t0] + seq![t1] =~= all);
        lemma_join(part0 + cb + pc + cc + pj, n4 + e0, seq![t2] + tb + seq![t0], x4 + seq![start], pl, e0, seq![t1], no_labels(), env);
        let whole = part0 + cb + pc + cc + pj + pl;
        assert(code =~= whole);
        lemma_defined_has(whole, 0, start);
        let ic = (1 + cb.len()) as int;
        assert(whole[ic] == IrInstr::Label(cont));
        lemma_defined_has(whole, ic, cont);
        assert(whole[whole.len() - 1] == IrInstr::Label(brk));
        lemma_defined_has(whole, whole.len() - 1, brk);
        let extra = x4 + seq![start] + no_labels();
        assert(extra =~= seq![cont, brk, start]);
        assert((n4 + e0 + e0).subset_of(numbers(c.labels, c2.labels)));
        lemma_finish(whole, n4 + e0 + e0, seq![t2] + tb + seq![t0] + seq![t1], env, extra, c.labels, c2.labels, all);
    }
}

#[verifier::rlimit(100)]
proof fn lemma_for_sound(s: Statement, c: Counters, env: Seq<Seq<char>>)
    requires
        s is For,
        stmt_wf(s),
        loop_tags(s).no_duplicates(),
        jumps_bound(s, env),
    ensures
        sound(lower_stmt(s, c).0, numbers(c.labels, lower_stmt(s, c).1.labels), loop_tags(s), env, no_labels()),
    decreases s, 0nat,
{
    if let Statement::For { initializer, condition, post, body, identifier } = s {
        let id = loop_id(identifier);
        let (code, c4) = lower_stmt(s, c);
        let (ci, c1) = lower_for_init(initializer, c);
        let (cc, c2) = lower_for_condition(condition, id, c1);
        let (cb, c3) = lower_stmt(*body, c2);
        let (cp, c4b) = lower_opt(post, c3);
        let cont = continue_label(id);
        let brk = break_label(id);
        let start = start_label(id);
        let t0 = (0nat, id);
        let t1 = (1nat, id);
        let t2 = (2nat, id);
        assert(tag_label(t0) == cont);
        assert(tag_label(t1) == brk);
        assert(tag_label(t2) == start);
        let tb = loop_tags(*body);
        let all = loop_tags(s);
        assert(all == seq![t2] + tb + seq![t0, t1]);
        assert(all.subrange(1, 1 + tb.len() as int) =~= tb);
        lemma_nodup_part(all, 1, 1 + tb.len() as int);
        assert(all.subrange(0, 1 + tb.len() as int) =~= seq![t2] + tb);
        lemma_nodup_part(all, 0, 1 + tb.len() as int);
        assert(all.subrange(0, 2 + tb.len() as int) =~= seq![t2] + tb + seq![t0]);
        lemma_nodup_part(all, 0, 2 + tb.len() as int);
        match initializer {
            ForInit::InitDecl(d) => crate::tac::lemma_decl_grows(d, c),
            ForInit::InitExp(e) => crate::tac::lemma_opt_grows(e, c),
        }
        crate::tac::lemma_for_condition_grows(condition, id, c1);
        lemma_stmt_grows(*body, c2);
        crate::tac::lemma_opt_grows(post, c3);
        lemma_for_init_sound(initializer, c, env);
        lemma_piece_tagged(t2, env);
        lemma_for_condition_sound(condition, id, c1, env);
        lemma_stmt_sound(*body, c2, env.push(id));
        lemma_shift(cb, numbers(c2.labels, c3.labels), tb, env, id);
        lemma_piece_tagged(t0, env);
        lemma_opt_sound(post, c3, env);
        lemma_piece_jump(IrInstr::Jump(start), env);
        lemma_piece_tagged(t1, env);
        let e0 = Set::<nat>::empty();
        let ni = numbers(c.labels, c1.labels);
        let nc = numbers(c1.labels, c2.labels);
        let nb = numbers(c2.labels, c3.labels);
        let np = numbers(c3.labels, c4.labels);
        let part1 = seq![IrInstr::Label(start)];
        let part4 = seq![IrInstr::Label(cont)];
        let part6 = seq![IrInstr::Jump(start)];
        let part7 = seq![IrInstr::Label(brk)];
        assert(ni.disjoint(e0));
        assert(no_tags() + seq![t2] =~= seq![t2]);
        lemma_join(ci, ni, no_tags(), no_labels(), part1, e0, seq![t2], no_labels(), env);
        assert((ni + e0).disjoint(nc));
        lemma_join_plain(ci + part1, ni + e0, seq![t2], no_labels() + no_labels(), cc, nc, seq![brk], env);
        let n2 = ni + e0 + nc;
        let x2 = no_labels() + no_labels() + seq![brk];
        assert(n2.disjoint(nb));
        lemma_join(ci + part1 + cc, n2, seq![t2], x2, cb, nb, tb, seq![cont, brk], env);
        assert((n2 + nb).disjoint(e0));
        lemma_join(ci + part1 + cc + cb, n2 + nb, seq![t2] + tb, x2 + seq![cont, brk], part4, e0, seq![t0], no_labels(), env);
        let n4 = n2 + nb + e0;
        let x4 = x2 + seq![cont, brk] + no_labels();
        assert(n4.disjoint(np));
        lemma_join_plain(ci + part1 + cc + cb + part4, n4, seq![t2] + tb + seq![t0], x4, cp, np, no_labels(), env);
        assert((n4 + np).disjoint(e0));
        lemma_join_plain(ci + part1 + cc + cb + part4 + cp, n4 + np, seq![t2] + tb + seq![t0], x4 + no_labels(), part6, e0, seq![start], env);
        assert((n4 + np + e0).disjoint(e0));
        assert(seq![t2] + tb + seq![t0] + seq![t1] =~= all);
        lemma_join(ci + part1 + cc + cb + part4 + cp + part6, n4 + np + e0, seq![t2] + tb + seq![t0], x4 + no_labels() + seq![start], part7, e0, seq![t1], no_labels(), env);
        let whole = ci + part1 + cc + cb + part4 + cp + part6 + part7;
        assert(code =~= whole);
        let is = ci.len() as int;
        assert(whole[is] == IrInstr::Label(start));
        lemma_defined_has(whole, is, start);
        let ic = (ci.len() + 1 + cc.len() + cb.len()) as int;
        assert(whole[ic] == IrInstr::Label(cont));
        lemma_defined_has(whole, ic, cont);
        assert(whole[whole.len() - 1] == IrInstr::Label(brk));
        lemma_defined_has(whole, whole.len() - 1, brk);
        let extra = x4 + no_labels() + seq![start] + no_labels();
        assert(extra =~= seq![brk, cont, brk, start]);
        assert((n4 + np + e0 + e0).subset_of(numbers(c.labels, c4.labels)));
        lemma_finish(whole, n4 + np + e0 + e0, seq![t2] + tb + seq![t0] + seq![t1], env, extra, c.labels, c4.labels, all);
    }
}

/// Lowering a labeled statement defines each label once, and every jump leads to a
/// defined label or out of a loop of `env` around the statement.
pub proof fn lemma_stmt_sound(s: Statement, c: Counters, env: Seq<Seq<char>>)
    requires
        stmt_wf(s),
        loop_tags(s).no_duplicates(),
        jumps_bound(s, env),
    ensures
        sound(lower_stmt(s, c).0, numbers(c.labels, lower_stmt(s, c).1.labels), loop_tags(s), env, no_labels()),
    decreases s, 1nat,
{
    match s {
        Statement::Return(e) => {
            let (code, v, c1) = lower_exp(e, c);
            lemma_exp_sound(e, c, env);
            lemma_piece_plain(IrInstr::Return(v), env);
            assert(numbers(c.labels, c1.labels).disjoint(Set::<nat>::empty()));
            lemma_join_plain(code, numbers(c.labels, c1.labels), no_tags(), no_labels(), seq![IrInstr::Return(v)], Set::empty(), no_labels(), env);
            assert(code.push(IrInstr::Return(v)) =~= code + seq![IrInstr::Return(v)]);
            lemma_finish(code + seq![IrInstr::Return(v)], numbers(c.labels, c1.labels) + Set::empty(), no_tags(), env, no_labels() + no_labels(), c.labels, c1.labels, loop_tags(s));
        },
        Statement::Expression(e) => lemma_exp_sound(e, c, env),
        Statement::Null => lemma_empty_code(numbers(c.labels, c.labels), env, no_labels()),
        Statement::Break { label } => {
            let x = IrInstr::Jump(break_label(loop_id(label)));
            lemma_piece_jump(x, env);
            lemma_exit(loop_id(label), env);
            assert(seq![break_label(loop_id(label))][0] == break_label(loop_id(label)));
            lemma_finish(seq![x], Set::empty(), no_tags(), env, seq![break_label(loop_id(label))], c.labels, c.labels, loop_tags(s));
        },
        Statement::Continue { label } => {
            let x = IrInstr::Jump(continue_label(loop_id(label)));
            lemma_piece_jump(x, env);
            lemma_exit(loop_id(label), env);
            assert(seq![continue_label(loop_id(label))][0] == continue_label(loop_id(label)));
            lemma_finish(seq![x], Set::empty(), no_tags(), env, seq![continue_label(loop_id(label))], c.labels, c.labels, loop_tags(s));
        },
        Statement::If { .. } => lemma_if_sound(s, c, env),
        Statement::Compound(block) => lemma_items_sound(block.0@, c, env),
        Statement::While { .. } => lemma_while_sound(s, c, env),
        Statement::DoWhile { .. } => lemma_do_while_sound(s, c, env),
        Statement::For { .. } => lemma_for_sound(s, c, env),
    }
}

proof fn lemma_item_sound(item: BlockItem, c: Counters, env: Seq<Seq<char>>)
    requires
        item_wf(item),
        item_tags(item).no_duplicates(),
        item_jumps_bound(item, env),
    ensures
        sound(lower_item(item, c).0, numbers(c.labels, lower_item(item, c).1.labels), item_tags(item), env, no_labels()),
    decreases item, 1nat,
{
    match item {
        BlockItem::S(s) => lemma_stmt_sound(s, c, env),
        BlockItem::D(Declaration::VarDecl(d)) => lemma_decl_sound(d, c, env),
        BlockItem::D(Declaration::FuncDecl(_)) => lemma_empty_code(numbers(c.labels, c.labels), env, no_labels()),
    }
}

proof fn lemma_items_sound(items: Seq<BlockItem>, c: Counters, env: Seq<Seq<char>>)
    requires
        items_wf(items),
        items_tags(items).no_duplicates(),
        items_jumps_bound(items, env),
    ensures
        sound(lower_items(items, c).0, numbers(c.labels, lower_items(items, c).1.labels), items_tags(items), env, no_labels()),
    decreases items, 1nat,
{
    if items.len() == 0 {
        lemma_empty_code(numbers(c.labels, c.labels), env, no_labels());
    } else {
        let front = items.subrange(0, items.len() - 1);
        let last = items[items.len() - 1];
        assert(items_wf(front)) by {
            assert forall|k: int| 0 <= k < front.len() implies item_wf(#[trigger] front[k]) by {
                assert(front[k] == items[k]);
            }
        }
        assert(items_jumps_bound(front, env)) by {
            assert forall|k: int| 0 <= k < front.len() implies item_jumps_bound(#[trigger] front[k], env) by {
                assert(front[k] == items[k]);
            }
        }
        assert(item_wf(last));
        assert(item_jumps_bound(last, env));
        let tf = items_tags(front);
        let tl = item_tags(last);
        assert(items_tags(items) == tf + tl);
        lemma_nodup_part(tf + tl, 0, tf.len() as int);
        assert((tf + tl).subrange(0, tf.len() as int) =~= tf);
        lemma_nodup_part(tf + tl, tf.len() as int, (tf + tl).len() as int);
        assert((tf + tl).subrange(tf.len() as int, (tf + tl).len() as int) =~= tl);
        lemma_items_sound(front, c, env);
        lemma_items_grows(front, c);
        let (a, c1) = lower_items(front, c);
        lemma_item_sound(last, c1, env);
        lemma_item_grows(last, c1);
        let (b, c2) = lower_item(last, c1);
        assert(numbers(c.labels, c1.labels).disjoint(numbers(c1.labels, c2.labels)));
        lemma_join(a, numbers(c.labels, c1.labels), tf, no_labels(), b, numbers(c1.labels, c2.labels), tl, no_labels(), env);
        assert((numbers(c.labels, c1.labels) + numbers(c1.labels, c2.labels)).subset_of(numbers(c.labels, c2.labels)));
        lemma_finish(a + b, numbers(c.labels, c1.labels) + numbers(c1.labels, c2.labels), tf + tl, env, no_labels() + no_labels(), c.labels, c2.labels, items_tags(items));
    }
}

/// Label uniqueness: in the lowered body of a function whose loops carry distinct
/// identifiers and whose `break` and `continue` statements name loops around them,
/// every label is defined exactly once, and every `Jump`, `JumpIfZero` and
/// `JumpIfNotZero` leads to a label that the body defines.
pub proof fn lemma_label_uniqueness(f: ast::Function)
    requires
        ast::items_wf(f.body.0@),
        items_loop_ids(f.body.0@).no_duplicates(),
        items_jumps_bound(f.body.0@, Seq::empty()),
    ensures
        defined_labels(lower_function(f)).no_duplicates(),
        targets_in(lower_function(f), defined_labels(lower_function(f))),
{
    let env = Seq::<Seq<char>>::empty();
    lemma_items_tags(f.body.0@);
    lemma_items_sound(f.body.0@, Counters { temps: 0, labels: 0 }, env);
    let code = lower_function(f);
    assert forall|k: int|
        0 <= k < code.len() && (#[trigger] jump_target(code[k])) is Some implies defined_labels(
        code,
    ).contains(jump_target(code[k])->0) by {
        assert(!exit_of(jump_target(code[k])->0, env));
        assert(!no_labels().contains(jump_target(code[k])->0));
    }
}

/// The identifiers of the loops of a statement, in order.
pub open spec fn loop_ids(s: Statement) -> Seq<Seq<char>>
    decreases s,
{
    match s {
        Statement::If { then, else_statement, .. } => loop_ids(*then) + match else_statement {
            Some(x) => loop_ids(*x),
            None => Seq::empty(),
        },
        Statement::Compound(block) => items_loop_ids(block.0@),
        Statement::While { body, identifier, .. } => seq![loop_id(identifier)] + loop_ids(*body),
        Statement::DoWhile { body, identifier, .. } => seq![loop_id(identifier)] + loop_ids(*body),
        Statement::For { body, identifier, .. } => seq![loop_id(identifier)] + loop_ids(*body),
        _ => Seq::empty(),
    }
}

pub open spec fn item_loop_ids(item: BlockItem) -> Seq<Seq<char>>
    decreases item,
{
    match item {
        BlockItem::S(s) => loop_ids(s),
        BlockItem::D(_) => Seq::empty(),
    }
}

pub open spec fn items_loop_ids(items: Seq<BlockItem>) -> Seq<Seq<char>>
    decreases items,
{
    if items.len() == 0 {
        Seq::empty()
    } else {
        items_loop_ids(items.subrange(0, items.len() - 1)) + item_loop_ids(items[items.len() - 1])
    }
}

/// Each tag names a loop of `ids`, and no tag repeats.
pub open spec fn tags_of(tags: Seq<(nat, Seq<char>)>, ids: Seq<Seq<char>>) -> bool {
    &&& tags.no_duplicates()
    &&& forall|k: int| 0 <= k < tags.len() ==> ids.contains(#[trigger] tags[k].1)
}

proof fn lemma_nodup_concat<A>(a: Seq<A>, b: Seq<A>)
    requires
        a.no_duplicates(),
        b.no_duplicates(),
        forall|i: int, j: int| 0 <= i < a.len() && 0 <= j < b.len() ==> a[i] != b[j],
    ensures
        (a + b).no_duplicates(),
{
    assert forall|i: int, j: int| 0 <= i < j < (a + b).len() implies (a + b)[i] != (a + b)[j] by {
        if i < a.len() && j >= a.len() {
            assert((a + b)[i] == a[i]);
            assert((a + b)[j] == b[j - a.len()]);
        } else if j < a.len() {
            assert((a + b)[i] == a[i]);
            assert((a + b)[j] == a[j]);
        } else {
            assert((a + b)[i] == b[i - a.len()]);
            assert((a + b)[j] == b[j - a.len()]);
        }
    }
}

/// Tags over loops `ia` and tags over loops `ib` join without repeats when no loop
/// is in both.
proof fn lemma_tags_join(ta: Seq<(nat, Seq<char>)>, ia: Seq<Seq<char>>, tb: Seq<(nat, Seq<char>)>, ib: Seq<Seq<char>>)
    requires
        tags_of(ta, ia),
        tags_of(tb, ib),
        (ia + ib).no_duplicates(),
    ensures
        tags_of(ta + tb, ia + ib),
{
    assert forall|i: int, j: int| 0 <= i < ta.len() && 0 <= j < tb.len() implies ta[i] != tb[j] by {
        if ta[i] == tb[j] {
            let x = choose|x: int| 0 <= x < ia.len() && ia[x] == ta[i].1;
            let y = choose|y: int| 0 <= y < ib.len() && ib[y] == tb[j].1;
            assert((ia + ib)[x] == ia[x]);
            assert((ia + ib)[ia.len() + y] == ib[y]);
        }
    }
    lemma_nodup_concat(ta, tb);
    assert forall|k: int| 0 <= k < (ta + tb).len() implies (ia + ib).contains(#[trigger] (ta + tb)[k].1) by {
        if k < ta.len() {
            assert((ta + tb)[k] == ta[k]);
            let x = choose|x: int| 0 <= x < ia.len() && ia[x] == ta[k].1;
            assert((ia + ib)[x] == ia[x]);
        } else {
            assert((ta + tb)[k] == tb[k - ta.len()]);
            let y = choose|y: int| 0 <= y < ib.len() && ib[y] == tb[k - ta.len()].1;
            assert((ia + ib)[ia.len() + y] == ib[y]);
        }
    }
}

proof fn lemma_nodup_split<A>(a: Seq<A>, b: Seq<A>)
    requires
        (a + b).no_duplicates(),
    ensures
        a.no_duplicates(),
        b.no_duplicates(),
{
    assert forall|i: int, j: int| 0 <= i < j < a.len() implies a[i] != a[j] by {
        assert((a + b)[i] == a[i]);
        assert((a + b)[j] == a[j]);
    }
    assert forall|i: int, j: int| 0 <= i < j < b.len() implies b[i] != b[j] by {
        assert((a + b)[i + a.len()] == b[i]);
        assert((a + b)[j + a.len()] == b[j]);
    }
}

/// The tags of a loop's own labels, joined around those of its body.
proof fn lemma_loop_tags(
    front: Seq<(nat, Seq<char>)>,
    tb: Seq<(nat, Seq<char>)>,
    back: Seq<(nat, Seq<char>)>,
    id: Seq<char>,
    ib: Seq<Seq<char>>,
)
    requires
        tags_of(tb, ib),
        (seq![id] + ib).no_duplicates(),
        front.no_duplicates(),
        back.no_duplicates(),
        forall|k: int| 0 <= k < front.len() ==> (#[trigger] front[k]).1 == id,
        forall|k: int| 0 <= k < back.len() ==> (#[trigger] back[k]).1 == id,
        forall|i: int, j: int| 0 <= i < front.len() && 0 <= j < back.len() ==> front[i] != back[j],
    ensures
        tags_of(front + tb + back, seq![id] + ib),
{
    let all = seq![id] + ib;
    assert(all[0] == id);
    assert forall|k: int| 0 <= k < ib.len() implies all.contains(#[trigger] ib[k]) by {
        assert(all[k + 1] == ib[k]);
    }
    assert(!ib.contains(id)) by {
        if ib.contains(id) {
            let k = choose|k: int| 0 <= k < ib.len() && ib[k] == id;
            assert(all[k + 1] == all[0]);
        }
    }
    assert forall|i: int, j: int| 0 <= i < front.len() && 0 <= j < tb.len() implies front[i] != tb[j] by {
        assert(ib.contains(tb[j].1));
    }
    lemma_nodup_concat(front, tb);
    assert forall|i: int, j: int| 0 <= i < (front + tb).len() && 0 <= j < back.len() implies (front
        + tb)[i] != back[j] by {
        if i < front.len() {
            assert((front + tb)[i] == front[i]);
        } else {
            assert((front + tb)[i] == tb[i - front.len()]);
            assert(ib.contains(tb[i - front.len()].1));
        }
    }
    lemma_nodup_concat(front + tb, back);
    let t = front + tb + back;
    assert forall|k: int| 0 <= k < t.len() implies all.contains(#[trigger] t[k].1) by {
        if k < front.len() {
            assert(t[k] == front[k]);
        } else if k < front.len() + tb.len() {
            assert(t[k] == tb[k - front.len()]);
            assert(ib.contains(tb[k - front.len()].1));
            let y = choose|y: int| 0 <= y < ib.len() && ib[y] == tb[k - front.len()].1;
            assert(all[y + 1] == ib[y]);
        } else {
            assert(t[k] == back[k - front.len() - tb.len()]);
        }
    }
}

/// Loops with distinct identifiers give distinct loop-label tags.
pub proof fn lemma_stmt_tags(s: Statement)
    requires
        loop_ids(s).no_duplicates(),
    ensures
        tags_of(loop_tags(s), loop_ids(s)),
    decreases s,
{
    match s {
        Statement::If { then, else_statement, .. } => {
            let e = match else_statement {
                Some(x) => loop_ids(*x),
                None => Seq::<Seq<char>>::empty(),
            };
            lemma_nodup_split(loop_ids(*then), e);
            lemma_stmt_tags(*then);
            match else_statement {
                Some(x) => {
                    lemma_stmt_tags(*x);
                    lemma_tags_join(loop_tags(*then), loop_ids(*then), loop_tags(*x), loop_ids(*x));
                },
                None => {
                    assert(loop_tags(*then) + no_tags() =~= loop_tags(*then));
                    assert(loop_ids(*then) + Seq::<Seq<char>>::empty() =~= loop_ids(*then));
                },
            }
        },
        Statement::Compound(block) => lemma_items_tags(block.0@),
        Statement::While { body, identifier, .. } => {
            let id = loop_id(identifier);
            lemma_nodup_split(seq![id], loop_ids(*body));
            lemma_stmt_tags(*body);
            lemma_loop_tags(seq![(0nat, id)], loop_tags(*body), seq![(1nat, id)], id, loop_ids(*body));
        },
        Statement::DoWhile { body, identifier, .. } => {
            let id = loop_id(identifier);
            lemma_nodup_split(seq![id], loop_ids(*body));
            lemma_stmt_tags(*body);
            lemma_loop_tags(seq![(2nat, id)], loop_tags(*body), seq![(0nat, id), (1nat, id)], id, loop_ids(*body));
        },
        Statement::For { body, identifier, .. } => {
            let id = loop_id(identifier);
            lemma_nodup_split(seq![id], loop_ids(*body));
            lemma_stmt_tags(*body);
            lemma_loop_tags(seq![(2nat, id)], loop_tags(*body), seq![(0nat, id), (1nat, id)], id, loop_ids(*body));
        },
        _ => {},
    }
}

proof fn lemma_item_tags(item: BlockItem)
    requires
        item_loop_ids(item).no_duplicates(),
    ensures
        tags_of(item_tags(item), item_loop_ids(item)),
    decreases item,
{
    match item {
        BlockItem::S(s) => lemma_stmt_tags(s),
        BlockItem::D(_) => {},
    }
}

proof fn lemma_items_tags(items: Seq<BlockItem>)
    requires
        items_loop_ids(items).no_duplicates(),
    ensures
        tags_of(items_tags(items), items_loop_ids(items)),
    decreases items,
{
    if items.len() > 0 {
        let front = items.subrange(0, items.len() - 1);
        let last = items[items.len() - 1];
        lemma_nodup_split(items_loop_ids(front), item_loop_ids(last));
        lemma_items_tags(front);
        lemma_item_tags(last);
        lemma_tags_join(items_tags(front), items_loop_ids(front), item_tags(last), item_loop_ids(last));
    }
}

/// The labels that assembly `code` defines, in order.
pub open spec fn asm_defined_labels(code: Seq<AsmInstr>) -> Seq<Seq<char>>
    decreases code.len(),
{
    if code.len() == 0 {
        seq![]
    } else {
        let front = asm_defined_labels(code.drop_last());
        match code.last() {
            AsmInstr::Label(l) => front.push(l),
            _ => front,
        }
    }
}

/// The label that an assembly jump leads to, if it is a jump.
pub open spec fn asm_jump_target(i: AsmInstr) -> Option<Seq<char>> {
    match i {
        AsmInstr::Jmp(l) => Some(l),
        AsmInstr::JumpCC(_, l) => Some(l),
        _ => None,
    }
}

proof fn lemma_asm_defined_concat(a: Seq<AsmInstr>, b: Seq<AsmInstr>)
    ensures
        asm_defined_labels(a + b) == asm_defined_labels(a) + asm_defined_labels(b),
    decreases b.len(),
{
    if b.len() == 0 {
        assert(a + b =~= a);
        assert(asm_defined_labels(a) + asm_defined_labels(b) =~= asm_defined_labels(a));
    } else {
        lemma_asm_defined_concat(a, b.drop_last());
        assert((a + b).drop_last() =~= a + b.drop_last());
        assert((a + b).last() == b.last());
        assert(asm_defined_labels(a + b) =~= asm_defined_labels(a) + asm_defined_labels(b));
    }
}

proof fn lemma_asm_defined_nolabels(xs: Seq<AsmInstr>)
    requires
        forall|k: int| 0 <= k < xs.len() ==> !(#[trigger] xs[k] is Label),
    ensures
        asm_defined_labels(xs) == Seq::<Seq<char>>::empty(),
    decreases xs.len(),
{
    if xs.len() > 0 {
        lemma_asm_defined_nolabels(xs.drop_last());
    }
}

/// Selecting one instruction defines the label it defines, and jumps where it jumps.
proof fn lemma_select_instr_labels(i: IrInstr)
    ensures
        asm_defined_labels(select_instr(i)) == match i {
            IrInstr::Label(l) => seq![l],
            _ => Seq::<Seq<char>>::empty(),
        },
        forall|k: int|
            0 <= k < select_instr(i).len() && (#[trigger] asm_jump_target(select_instr(i)[k])) is Some
                ==> asm_jump_target(select_instr(i)[k]) == jump_target(i),
{
    let out = select_instr(i);
    match i {
        IrInstr::Label(l) => {
            lemma_asm_defined_nolabels(Seq::<AsmInstr>::empty());
            assert(out.drop_last() =~= Seq::<AsmInstr>::empty());
            assert(asm_defined_labels(out) =~= seq![l]);
        },
        _ => {
            lemma_asm_defined_nolabels(out);
        },
    }
}

/// Instruction selection keeps the labels of the code, in order, and every jump of
/// the selected code leads where a jump of the code led.
pub proof fn lemma_select_labels(ir: Seq<IrInstr>)
    ensures
        asm_defined_labels(select(ir)) == defined_labels(ir),
        forall|k: int|
            0 <= k < select(ir).len() && (#[trigger] asm_jump_target(select(ir)[k])) is Some
                ==> exists|j: int|
                0 <= j < ir.len() && #[trigger] jump_target(ir[j]) == asm_jump_target(select(ir)[k]),
    decreases ir.len(),
{
    if ir.len() > 0 {
        let front = ir.drop_last();
        let a = select(front);
        let b = select_instr(ir.last());
        lemma_select_labels(front);
        lemma_select_instr_labels(ir.last());
        lemma_asm_defined_concat(a, b);
        match ir.last() {
            IrInstr::Label(l) => {
                assert(defined_labels(ir) == defined_labels(front).push(l));
                assert(defined_labels(front) + seq![l] =~= defined_labels(front).push(l));
            },
            _ => {
                assert(defined_labels(front) + Seq::<Seq<char>>::empty() =~= defined_labels(front));
            },
        }
        assert forall|k: int|
            0 <= k < select(ir).len() && (#[trigger] asm_jump_target(select(ir)[k])) is Some implies exists|j: int|
            0 <= j < ir.len() && #[trigger] jump_target(ir[j]) == asm_jump_target(select(ir)[k]) by {
            if k < a.len() {
                assert(select(ir)[k] == a[k]);
                let j = choose|j: int| 0 <= j < front.len() && #[trigger] jump_target(front[j]) == asm_jump_target(a[k]);
                assert(ir[j] == front[j]);
            } else {
                assert(select(ir)[k] == b[k - a.len()]);
                assert(ir[ir.len() - 1] == ir.last());
            }
        }
    } else {
        assert(asm_defined_labels(select(ir)) =~= defined_labels(ir));
    }
}

/// Label uniqueness after instruction selection: the assembly selected for such a
/// function defines every label exactly once, and every `jmp` and `j<cc>` leads to a
/// label that it defines.
pub proof fn lemma_selected_label_uniqueness(f: ast::Function)
    requires
        ast::items_wf(f.body.0@),
        items_loop_ids(f.body.0@).no_duplicates(),
        items_jumps_bound(f.body.0@, Seq::empty()),
    ensures
        asm_defined_labels(select(lower_function(f))).no_duplicates(),
        forall|k: int|
            0 <= k < select(lower_function(f)).len() && (#[trigger] asm_jump_target(
                select(lower_function(f))[k],
            )) is Some ==> asm_defined_labels(select(lower_function(f))).contains(
                asm_jump_target(select(lower_function(f))[k])->0,
            ),
{
    let ir = lower_function(f);
    lemma_label_uniqueness(f);
    lemma_select_labels(ir);
    assert forall|k: int|
        0 <= k < select(ir).len() && (#[trigger] asm_jump_target(select(ir)[k])) is Some implies asm_defined_labels(
        select(ir),
    ).contains(asm_jump_target(select(ir)[k])->0) by {
        let j = choose|j: int| 0 <= j < ir.len() && #[trigger] jump_target(ir[j]) == asm_jump_target(select(ir)[k]);
        assert(targets_in(ir, defined_labels(ir)));
        assert(jump_target(ir[j]) is Some);
    }
}

} // verus!
