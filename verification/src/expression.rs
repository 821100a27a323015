//! Expressions: sequences of operators, their stack effect and their
//! evaluation.

use crate::combinator::{
    apply_plan,
    is_plan_literal,
    lemma_shuffle_len,
    parse_plan,
    produced,
    tag_of,
    StackC,
    SC,
};
use crate::dictionary::{resolve, Aliases, Dictionary};
use crate::literal::{is_table_literal, parse_table, truth_of, Func, Stack, Table};
use crate::rows::{lemma_row_index, row, row_index, value_of, Values};
use crate::text::{chars_of, split_words, string_of, words};
use vstd::arithmetic::power2::{lemma2_to64, pow2};
use vstd::prelude::*;

verus! {

/// An operator as a mathematical value.
pub enum Op {
    /// A boolean function, given by its table.
    Lookup(Table),
    /// A stack combinator, given by its plan.
    Shuffle(Seq<SC>),
}

impl Op {
    /// How many values the operator takes off the stack.
    pub open spec fn inputs(self) -> nat {
        match self {
            Op::Lookup(table) => table.arity,
            Op::Shuffle(plan) => plan.len(),
        }
    }

    /// How many values the operator puts on the stack.
    pub open spec fn outputs(self) -> nat {
        match self {
            Op::Lookup(_) => 1,
            Op::Shuffle(plan) => produced(plan),
        }
    }

    /// What the operator leaves of a stack, where the stack is deep enough.
    pub open spec fn apply(self, stack: Seq<bool>) -> Option<Seq<bool>> {
        match self {
            Op::Lookup(table) => table.apply(stack),
            Op::Shuffle(plan) => apply_plan(plan, stack),
        }
    }
}

/// The operator that a word spells: a table literal, or else a combinator
/// literal.
pub open spec fn parse_op(word: Seq<char>) -> Option<Op> {
    match parse_table(word) {
        Some(table) => Some(Op::Lookup(table)),
        None => match parse_plan(word) {
            Some(plan) => Some(Op::Shuffle(plan)),
            None => None,
        },
    }
}

/// The operators that a list of words spells, each word resolved through the
/// dictionary first. One word that spells no operator spoils the whole list.
pub open spec fn ops_of_words(m: Aliases, ws: Seq<Seq<char>>) -> Option<Seq<Op>>
    decreases ws.len(),
{
    if ws.len() == 0 {
        Some(Seq::empty())
    } else {
        match (ops_of_words(m, ws.drop_last()), parse_op(resolve(m, ws.last()))) {
            (Some(before), Some(op)) => Some(before.push(op)),
            _ => None,
        }
    }
}

/// The operators that a line spells.
pub open spec fn ops_of_line(m: Aliases, line: Seq<char>) -> Option<Seq<Op>> {
    ops_of_words(m, words(line))
}

/// The program that a line spells on this machine: its operators, unless
/// they take and give more values than a machine word can count.
pub open spec fn program(m: Aliases, line: Seq<char>) -> Option<Seq<Op>> {
    match ops_of_line(m, line) {
        Some(ops) => if weight(ops) <= usize::MAX {
            Some(ops)
        } else {
            None
        },
        None => None,
    }
}

/// The truth table of a list of operators that makes one value of `inputs`
/// values: for each row of the canonical table, what the list leaves of it.
pub open spec fn table_of(ops: Seq<Op>, inputs: nat) -> Seq<bool> {
    Seq::new(pow2(inputs), |r: int| run(ops, row(inputs, r as nat)).unwrap()[0])
}

/// The number of values that the operators of a list take and give, all
/// together.
pub open spec fn weight(ops: Seq<Op>) -> nat
    decreases ops.len(),
{
    if ops.len() == 0 {
        0
    } else {
        weight(ops.drop_last()) + ops.last().inputs() + ops.last().outputs()
    }
}

/// What running a list of operators leaves of a stack. Nothing is defined
/// where one of them meets a stack that is too short.
pub open spec fn run(ops: Seq<Op>, stack: Seq<bool>) -> Option<Seq<bool>>
    decreases ops.len(),
{
    if ops.len() == 0 {
        Some(stack)
    } else {
        match run(ops.drop_last(), stack) {
            Some(between) => ops.last().apply(between),
            None => None,
        }
    }
}

/// The stack effect of a list of operators, found without running it.
pub struct Effect {
    /// The values taken so far less the values given so far.
    pub depth: int,
    /// The largest number of values that were ever owed: the stack depth
    /// that the list requires.
    pub max_depth: int,
    /// The number of values on top of the stack that the list has put there.
    pub net: int,
}

/// The stack effect of a list of operators.
pub open spec fn effect(ops: Seq<Op>) -> Effect
    decreases ops.len(),
{
    if ops.len() == 0 {
        Effect { depth: 0, max_depth: 0, net: 0 }
    } else {
        let before = effect(ops.drop_last());
        let op = ops.last();
        let reached = before.depth + op.inputs();
        Effect {
            depth: reached - op.outputs(),
            max_depth: if reached > before.max_depth {
                reached
            } else {
                before.max_depth
            },
            net: (if before.net > op.inputs() {
                before.net - op.inputs()
            } else {
                0
            }) + op.outputs(),
        }
    }
}

/// No word is both a table literal and a combinator literal.
pub proof fn lemma_one_grammar(word: Seq<char>)
    ensures
        !(is_table_literal(word) && is_plan_literal(word)),
{
    if is_table_literal(word) && is_plan_literal(word) {
        assert(truth_of(word[0]) is Some);
        assert(tag_of(word[0]) is Some);
    }
}

/// An operator works on a stack when the stack holds its inputs, and then
/// changes the depth by what it gives less what it takes.
pub proof fn lemma_apply_len(op: Op, stack: Seq<bool>)
    ensures
        op.apply(stack) is Some <==> op.inputs() <= stack.len(),
        op.apply(stack) matches Some(after) ==> after.len() == stack.len() - op.inputs()
            + op.outputs(),
{
    match op {
        Op::Lookup(_) => {},
        Op::Shuffle(plan) => {
            if plan.len() <= stack.len() {
                lemma_shuffle_len(plan, stack.skip(stack.len() - plan.len()));
            }
        },
    }
}

/// The three numbers of an effect hang together: what the list has put on
/// the stack is what it required less what it still owes. None of them
/// exceeds the weight of the list.
pub proof fn lemma_effect_balance(ops: Seq<Op>)
    ensures
        effect(ops).net == effect(ops).max_depth - effect(ops).depth,
        0 <= effect(ops).max_depth <= weight(ops),
        0 <= effect(ops).net <= weight(ops),
    decreases ops.len(),
{
    if ops.len() > 0 {
        lemma_effect_balance(ops.drop_last());
    }
}

/// A list of operators runs on exactly the stacks that are as deep as its
/// effect requires, and changes the depth as its effect says. On a stack of
/// just the required depth it leaves `net` values.
pub proof fn lemma_run_needs_depth(ops: Seq<Op>, stack: Seq<bool>)
    ensures
        run(ops, stack) is Some <==> effect(ops).max_depth <= stack.len(),
        run(ops, stack) matches Some(after) ==> after.len() == stack.len() - effect(ops).depth,
        run(ops, stack) matches Some(after) ==> stack.len() == effect(ops).max_depth
            ==> after.len() == effect(ops).net,
    decreases ops.len(),
{
    lemma_effect_balance(ops);
    if ops.len() > 0 {
        lemma_run_needs_depth(ops.drop_last(), stack);
        lemma_effect_balance(ops.drop_last());
        if let Some(between) = run(ops.drop_last(), stack) {
            lemma_apply_len(ops.last(), between);
        }
    }
}

/// A table literal on its own is an expression that requires the literal's
/// inputs, leaves one value, and has the literal's table for its truth table.
pub proof fn lemma_literal_is_its_table(table: Table)
    requires
        table.wf(),
    ensures
        effect(seq![Op::Lookup(table)]).max_depth == table.arity,
        effect(seq![Op::Lookup(table)]).net == 1,
        table_of(seq![Op::Lookup(table)], table.arity) == table.outputs,
{
    let ops = seq![Op::Lookup(table)];
    assert(ops.drop_last() =~= Seq::<Op>::empty());
    reveal_with_fuel(effect, 2);
    reveal_with_fuel(run, 2);
    assert forall|r: int| 0 <= r < pow2(table.arity) implies table_of(ops, table.arity)[r]
        == table.outputs[r] by {
        let input = row(table.arity, r as nat);
        lemma_row_index(input, r as nat);
        assert(input.skip(0) =~= input);
    }
    assert(table_of(ops, table.arity) =~= table.outputs);
}

/// The table of negation, the literal `ft`.
pub open spec fn negation() -> Table {
    Table { arity: 1, outputs: seq![false, true] }
}

/// Negation behind an expression that leaves one value negates its truth
/// table, row by row, and changes nothing else of its effect.
pub proof fn lemma_not_negates(ops: Seq<Op>)
    requires
        effect(ops).net == 1,
    ensures
        effect(ops.push(Op::Lookup(negation()))).max_depth == effect(ops).max_depth,
        effect(ops.push(Op::Lookup(negation()))).net == 1,
        table_of(ops.push(Op::Lookup(negation())), effect(ops).max_depth as nat) == Seq::new(
            pow2(effect(ops).max_depth as nat),
            |r: int| !table_of(ops, effect(ops).max_depth as nat)[r],
        ),
{
    let not = Op::Lookup(negation());
    let longer = ops.push(not);
    let n = effect(ops).max_depth as nat;
    assert(longer.drop_last() =~= ops);
    lemma_effect_balance(ops);
    let negated = Seq::new(pow2(n), |r: int| !table_of(ops, n)[r]);
    assert forall|r: int| 0 <= r < pow2(n) implies table_of(longer, n)[r] == negated[r] by {
        let input = row(n, r as nat);
        lemma_run_needs_depth(ops, input);
        let between = run(ops, input).unwrap();
        let top = between.skip(0);
        assert(top =~= seq![between[0]]);
        assert(top.drop_last() =~= Seq::<bool>::empty());
        reveal_with_fuel(value_of, 2);
        lemma2_to64();
        assert(row_index(top) == if between[0] {
            0nat
        } else {
            1nat
        });
    }
    assert(table_of(longer, n) =~= negated);
}

/// One word that spells no operator spoils the line: whatever the other
/// words are, the line spells no program.
pub proof fn lemma_unknown_word(m: Aliases, line: Seq<char>, k: int)
    requires
        0 <= k < words(line).len(),
        parse_op(resolve(m, words(line)[k])) is None,
    ensures
        ops_of_line(m, line) is None,
        program(m, line) is None,
{
    let ws = words(line);
    lemma_ops_prefix(m, ws, k + 1);
    assert(ws.take(k + 1).last() == ws[k]);
}

/// A beginning of a list weighs no more than the list.
pub proof fn lemma_weight_grows(ops: Seq<Op>, k: int)
    requires
        0 <= k <= ops.len(),
    ensures
        weight(ops.take(k)) <= weight(ops),
    decreases ops.len() - k,
{
    if k < ops.len() {
        lemma_weight_grows(ops, k + 1);
        assert(ops.take(k + 1).drop_last() =~= ops.take(k));
    } else {
        assert(ops.take(k) =~= ops);
    }
}

/// Where a beginning of a list fails on a stack, the list fails on it.
pub proof fn lemma_run_prefix(ops: Seq<Op>, k: int, stack: Seq<bool>)
    requires
        0 <= k <= ops.len(),
        run(ops.take(k), stack) is None,
    ensures
        run(ops, stack) is None,
    decreases ops.len() - k,
{
    if k < ops.len() {
        assert(ops.take(k + 1).drop_last() =~= ops.take(k));
        lemma_run_prefix(ops, k + 1, stack);
    } else {
        assert(ops.take(k) =~= ops);
    }
}

/// The operators of a list of words begin with the operators of each of its
/// beginnings.
pub proof fn lemma_ops_prefix(m: Aliases, ws: Seq<Seq<char>>, k: int)
    requires
        0 <= k <= ws.len(),
    ensures
        ops_of_words(m, ws) matches Some(ops) ==> ops.len() == ws.len() && ops_of_words(
            m,
            ws.take(k),
        ) == Some(ops.take(k)),
    decreases ws.len(),
{
    if ws.len() == 0 {
        assert(ws.take(k) =~= ws);
        assert(Seq::<Op>::empty().take(k) =~= Seq::<Op>::empty());
    } else if let Some(ops) = ops_of_words(m, ws) {
        lemma_ops_prefix(m, ws.drop_last(), if k < ws.len() {
            k
        } else {
            k - 1
        });
        if k < ws.len() {
            assert(ws.take(k) =~= ws.drop_last().take(k));
            assert(ops.take(k) =~= ops.drop_last().take(k));
        } else {
            assert(ws.take(k) =~= ws);
            assert(ops.take(k) =~= ops);
        }
    }
}

/// One operator of an expression.
#[derive(Debug)]
pub enum Expr {
    /// A boolean function.
    F(Func),
    /// A stack combinator.
    C(StackC),
}

impl View for Expr {
    type V = Op;

    open spec fn view(&self) -> Op {
        match self {
            Expr::F(f) => Op::Lookup(f@),
            Expr::C(c) => Op::Shuffle(c@),
        }
    }
}

impl Expr {
    /// How many values the operator takes off the stack.
    pub fn inputs(&self) -> (n: usize)
        ensures
            n == self@.inputs(),
    {
        match self {
            Expr::F(f) => f.inputs(),
            Expr::C(c) => c.inputs(),
        }
    }

    /// How many values the operator puts on the stack.
    pub fn outputs(&self) -> (n: usize)
        ensures
            n == self@.outputs(),
    {
        match self {
            Expr::F(_) => 1,
            Expr::C(c) => c.outputs(),
        }
    }

    /// Reads an operator: a table literal, or else a combinator literal.
    /// Any other word gives `None`, and so does a combinator that gives back
    /// more values than a machine word can count.
    pub fn from_str(word: &str) -> (parsed: Option<Expr>)
        ensures
            parsed is Some <==> parse_op(word@) is Some && parse_op(word@).unwrap().outputs()
                <= usize::MAX,
            parsed matches Some(e) ==> Some(e@) == parse_op(word@),
    {
        match Func::from_str(word) {
            Some(f) => Some(Expr::F(f)),
            None => match StackC::from_str(word) {
                Some(c) => Some(Expr::C(c)),
                None => None,
            },
        }
    }
}

/// The operators of a list as mathematical values.
pub open spec fn ops_view(exprs: Seq<Expr>) -> Seq<Op> {
    Seq::new(exprs.len(), |i: int| exprs[i]@)
}

/// A sequence of operators, run from the first to the last.
#[derive(Debug)]
pub struct Expression(Vec<Expr>);

impl View for Expression {
    type V = Seq<Op>;

    closed spec fn view(&self) -> Seq<Op> {
        ops_view(self.0@)
    }
}

impl Expression {
    #[verifier::type_invariant]
    spec fn inv(self) -> bool {
        weight(ops_view(self.0@)) <= usize::MAX
    }

    /// Reads a line: splits it into words, resolves each word through the
    /// dictionary and reads it as an operator. One word that spells no
    /// operator gives `None`, and so does a line whose operators take and
    /// give more values than a machine word can count.
    pub fn eval_str(spx: &str, dict: &Dictionary) -> (parsed: Option<Expression>)
        ensures
            parsed is Some <==> program(dict@, spx@) is Some,
            parsed matches Some(e) ==> Some(e@) == program(dict@, spx@),
    {
        let chars = chars_of(spx);
        let ws = split_words(&chars);
        let ghost all = words(spx@);
        let mut v: Vec<Expr> = Vec::new();
        let mut total: usize = 0;
        let mut k: usize = 0;
        while k < ws.len()
            invariant
                all == words(spx@),
                k <= ws@.len() == all.len(),
                forall|w: int| 0 <= w < ws@.len() ==> (#[trigger] ws@[w])@ == all[w],
                ops_of_words(dict@, all.take(k as int)) == Some(ops_view(v@)),
                total == weight(ops_view(v@)),
            decreases ws@.len() - k,
        {
            let word = dict.try_find(string_of(&ws[k]));
            let ghost before = ops_view(v@);
            let ghost next = all.take(k + 1);
            proof {
                assert(next.drop_last() =~= all.take(k as int));
                assert(next.last() == all[k as int]);
                assert(word@ == resolve(dict@, next.last()));
                lemma_ops_prefix(dict@, all, k + 1);
                if let Some(ops) = ops_of_words(dict@, all) {
                    lemma_weight_grows(ops, k + 1);
                    let op = parse_op(word@).unwrap();
                    assert(ops.take(k + 1) == before.push(op));
                    assert(before.push(op).drop_last() =~= before);
                    assert(weight(ops.take(k + 1)) == weight(before) + op.inputs() + op.outputs());
                }
            }
            let e = match Expr::from_str(word.as_str()) {
                Some(e) => e,
                None => {
                    return None;
                },
            };
            let taken = e.inputs();
            let given = e.outputs();
            if taken > usize::MAX - total || given > usize::MAX - total - taken {
                return None;
            }
            total = total + taken + given;
            v.push(e);
            assert(ops_view(v@).drop_last() =~= before);
            assert(ops_view(v@) =~= before.push(e@));
            k = k + 1;
        }
        assert(all.take(k as int) =~= all);
        Some(Expression(v))
    }

    /// The stack effect of the expression: the stack depth that it requires,
    /// and the number of values that it leaves on a stack of just that depth.
    pub fn count_io(&self) -> (io: (usize, usize))
        ensures
            io.0 == effect(self@).max_depth,
            io.1 == effect(self@).net,
    {
        proof {
            use_type_invariant(self);
        }
        let mut mi: usize = 0;
        let mut o: usize = 0;
        let mut k: usize = 0;
        while k < self.0.len()
            invariant
                k <= self.0@.len(),
                weight(self@) <= usize::MAX,
                self@ == ops_view(self.0@),
                mi == effect(self@.take(k as int)).max_depth,
                o == effect(self@.take(k as int)).net,
            decreases self.0@.len() - k,
        {
            let inputs = self.0[k].inputs();
            let outputs = self.0[k].outputs();
            proof {
                assert(self@.take(k + 1).drop_last() =~= self@.take(k as int));
                lemma_effect_balance(self@.take(k as int));
                lemma_effect_balance(self@.take(k + 1));
                lemma_weight_grows(self@, k + 1);
            }
            if inputs > o {
                mi = mi + (inputs - o);
                o = outputs;
            } else {
                o = o - inputs + outputs;
            }
            k = k + 1;
        }
        assert(self@.take(k as int) =~= self@);
        (mi, o)
    }

    /// Runs the expression on a stack. The result is `None` as soon as an
    /// operator meets a stack that is too short, which happens exactly when
    /// the stack was less deep than the expression requires.
    pub fn eval_expr(&self, stack: Stack) -> (out: Option<Stack>)
        ensures
            out is Some <==> run(self@, stack@) is Some,
            out is Some <==> effect(self@).max_depth <= stack@.len(),
            out matches Some(after) ==> Some(after@) == run(self@, stack@),
    {
        let ghost start = stack@;
        let mut work = stack;
        let mut k: usize = 0;
        while k < self.0.len()
            invariant
                start == stack@,
                k <= self.0@.len(),
                self@ == ops_view(self.0@),
                run(self@.take(k as int), start) == Some(work@),
            decreases self.0@.len() - k,
        {
            proof {
                assert(self@.take(k + 1).drop_last() =~= self@.take(k as int));
            }
            let top = match &self.0[k] {
                Expr::F(f) => f.eval(&mut work),
                Expr::C(c) => c.eval(&mut work),
            };
            match top {
                Some(mut res) => {
                    work.append(&mut res);
                },
                None => {
                    proof {
                        lemma_run_prefix(self@, k + 1, start);
                        lemma_run_needs_depth(self@, start);
                    }
                    return None;
                },
            }
            k = k + 1;
        }
        proof {
            lemma_run_needs_depth(self@, start);
        }
        assert(self@.take(k as int) =~= self@);
        Some(work)
    }

    /// The truth table of an expression that leaves one value: the value it
    /// leaves of each row of the canonical table over the inputs it
    /// requires. The result is `None` where the expression leaves another
    /// number of values, and where the table has more rows than a machine
    /// word can count.
    pub fn truth_table(&self) -> (table: Option<Vec<bool>>)
        ensures
            table is Some <==> effect(self@).net == 1 && effect(self@).max_depth < usize::BITS,
            table matches Some(outputs) ==> outputs@ == table_of(
                self@,
                effect(self@).max_depth as nat,
            ),
    {
        let (inputs, o) = self.count_io();
        if o != 1 || inputs >= usize::BITS as usize {
            return None;
        }
        let values = Values::genvalues(inputs);
        let mut res: Vec<bool> = Vec::new();
        let mut r: usize = 0;
        while r < values.values.len()
            invariant
                r <= values.values@.len() == pow2(inputs as nat),
                inputs == effect(self@).max_depth,
                effect(self@).net == 1,
                forall|i: int|
                    0 <= i < values.values@.len() ==> (#[trigger] values.values@[i])@ == row(
                        inputs as nat,
                        i as nat,
                    ),
                res@ == table_of(self@, inputs as nat).take(r as int),
            decreases values.values@.len() - r,
        {
            let v = values.values[r].clone();
            assert(v@ =~= row(inputs as nat, r as nat));
            proof {
                lemma_run_needs_depth(self@, v@);
            }
            match self.eval_expr(v) {
                Some(e) => {
                    res.push(e[0]);
                },
                None => vstd::pervasive::unreached(),
            }
            r = r + 1;
            assert(res@ =~= table_of(self@, inputs as nat).take(r as int));
        }
        assert(res@ =~= table_of(self@, inputs as nat));
        Some(res)
    }
}

} // verus!
