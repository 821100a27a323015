//! Truth-table literals: boolean functions written down as their table.
//!
//! A literal is a word of `2^n` truth characters. Read against the canonical
//! row order it gives the output of an `n`-input function for every input.

use crate::rows::{lemma_value_of_bound, row_index, spell};
use crate::text::chars_of;
use vstd::arithmetic::power2::*;
use vstd::prelude::*;

verus! {

/// The working memory of an evaluation; the top of the stack is the end.
pub type Stack = Vec<bool>;

/// The truth value that a character denotes, if it denotes one.
pub open spec fn truth_of(c: char) -> Option<bool> {
    if c == 't' || c == '1' {
        Some(true)
    } else if c == 'f' || c == '0' {
        Some(false)
    } else {
        None
    }
}

/// The truth values that the characters of a word denote.
pub open spec fn truths(s: Seq<char>) -> Seq<bool> {
    Seq::new(s.len(), |i: int| truth_of(s[i]) == Some(true))
}

/// A word is a table literal when its length is a power of two and each of
/// its characters denotes a truth value.
pub open spec fn is_table_literal(s: Seq<char>) -> bool {
    &&& exists|n: nat| s.len() == pow2(n)
    &&& forall|i: int| 0 <= i < s.len() ==> truth_of(#[trigger] s[i]) is Some
}

/// A boolean function as a mathematical value: `outputs[r]` is what the
/// function returns on row `r` of the canonical table over `arity` inputs.
pub struct Table {
    pub arity: nat,
    pub outputs: Seq<bool>,
}

impl Table {
    /// There is one output for each row.
    pub open spec fn wf(self) -> bool {
        self.outputs.len() == pow2(self.arity)
    }

    /// The output for one input vector of `arity` values.
    pub open spec fn output(self, input: Seq<bool>) -> bool {
        self.outputs[row_index(input) as int]
    }

    /// What the function leaves of a stack: it takes its inputs off the top,
    /// oldest first, and puts its one output in their place. Nothing is
    /// defined on a stack that is too short.
    pub open spec fn apply(self, stack: Seq<bool>) -> Option<Seq<bool>> {
        if stack.len() < self.arity {
            None
        } else {
            let kept = stack.len() - self.arity;
            Some(stack.take(kept).push(self.output(stack.skip(kept))))
        }
    }
}

/// The function that a word spells, if the word is a table literal.
pub open spec fn parse_table(s: Seq<char>) -> Option<Table> {
    if is_table_literal(s) {
        Some(Table { arity: choose|n: nat| s.len() == pow2(n), outputs: truths(s) })
    } else {
        None
    }
}

/// Only one exponent gives a power of two.
pub proof fn lemma_pow2_injective(a: nat, b: nat)
    requires
        pow2(a) == pow2(b),
    ensures
        a == b,
{
    if a < b {
        lemma_pow2_strictly_increases(a, b);
    }
    if b < a {
        lemma_pow2_strictly_increases(b, a);
    }
}

/// An odd number above one, doubled any number of times, is no power of two.
pub proof fn lemma_odd_factor(len: nat, odd: nat, doublings: nat, n: nat)
    requires
        len == odd * pow2(doublings),
        odd > 1,
        odd % 2 == 1,
    ensures
        len != pow2(n),
    decreases doublings,
{
    lemma2_to64();
    if n > 0 {
        lemma_pow2_unfold(n);
    }
    if doublings == 0 {
        assert(len == odd) by (nonlinear_arith)
            requires
                len == odd * pow2(doublings),
                pow2(doublings) == 1,
        ;
    } else {
        lemma_pow2_unfold(doublings);
        lemma_pow2_pos((doublings - 1) as nat);
        let half = odd * pow2((doublings - 1) as nat);
        assert(len == 2 * half) by (nonlinear_arith)
            requires
                len == odd * pow2(doublings),
                pow2(doublings) == 2 * pow2((doublings - 1) as nat),
                half == odd * pow2((doublings - 1) as nat),
        ;
        assert(half >= 1) by (nonlinear_arith)
            requires
                half == odd * pow2((doublings - 1) as nat),
                odd > 1,
                pow2((doublings - 1) as nat) > 0,
        ;
        if n > 0 {
            lemma_odd_factor(half, odd, (doublings - 1) as nat, (n - 1) as nat);
        }
    }
}

/// The truth value that a character denotes, if it denotes one.
pub fn asbool(s: &char) -> (b: Option<bool>)
    ensures
        b == truth_of(*s),
{
    let c = *s;
    if c == 't' || c == '1' {
        Some(true)
    } else if c == 'f' || c == '0' {
        Some(false)
    } else {
        None
    }
}

/// A boolean function held as its truth table.
#[derive(Debug, PartialEq)]
pub struct Func {
    inputs: usize,
    values: Vec<bool>,
}

impl View for Func {
    type V = Table;

    closed spec fn view(&self) -> Table {
        Table { arity: self.inputs as nat, outputs: self.values@ }
    }
}

impl Func {
    #[verifier::type_invariant]
    spec fn inv(self) -> bool {
        self.values@.len() == pow2(self.inputs as nat)
    }

    /// Reads a table literal. Any other word gives `None`.
    pub fn from_str(s: &str) -> (parsed: Option<Self>)
        ensures
            parsed is Some <==> is_table_literal(s@),
            parsed matches Some(f) ==> Some(f@) == parse_table(s@) && f@.wf(),
    {
        let chars = chars_of(s);
        let len = chars.len();
        if len == 0 {
            proof {
                lemma_not_pow2_zero();
            }
            return None;
        }
        let mut u: usize = len;
        let mut inputs: usize = 0;
        proof {
            lemma2_to64();
            assert(len == u * pow2(0)) by (nonlinear_arith)
                requires
                    len == u,
                    pow2(0) == 1,
            ;
        }
        while u > 1
            invariant
                u >= 1,
                len == u * pow2(inputs as nat),
                len == chars@.len(),
                chars@ == s@,
                inputs < len,
            decreases u,
        {
            if u % 2 != 0 {
                proof {
                    assert forall|n: nat| s@.len() != pow2(n) by {
                        lemma_odd_factor(len as nat, u as nat, inputs as nat, n);
                    }
                }
                return None;
            }
            proof {
                lemma_pow2_unfold((inputs + 1) as nat);
                lemma_pow2_pos(inputs as nat);
                assert(len == (u / 2) * pow2((inputs + 1) as nat)) by (nonlinear_arith)
                    requires
                        len == u * pow2(inputs as nat),
                        u % 2 == 0,
                        pow2((inputs + 1) as nat) == 2 * pow2(inputs as nat),
                ;
                lemma_below_pow2((inputs + 1) as nat);
                assert(len >= pow2((inputs + 1) as nat)) by (nonlinear_arith)
                    requires
                        len == (u / 2) * pow2((inputs + 1) as nat),
                        u / 2 >= 1,
                ;
            }
            inputs = inputs + 1;
            u = u / 2;
        }
        assert(len == pow2(inputs as nat)) by (nonlinear_arith)
            requires
                len == u * pow2(inputs as nat),
                u == 1,
        ;
        let mut values: Vec<bool> = Vec::new();
        let mut k: usize = 0;
        while k < len
            invariant
                k <= len,
                len == chars@.len(),
                chars@ == s@,
                values@ == truths(s@).take(k as int),
                forall|i: int| 0 <= i < k ==> truth_of(#[trigger] s@[i]) is Some,
            decreases len - k,
        {
            match asbool(&chars[k]) {
                Some(l) => values.push(l),
                None => {
                    return None;
                },
            }
            k = k + 1;
            assert(values@ =~= truths(s@).take(k as int));
        }
        assert(values@ =~= truths(s@));
        proof {
            let n = choose|n: nat| s@.len() == pow2(n);
            lemma_pow2_injective(n, inputs as nat);
        }
        Some(Func { inputs, values })
    }

    /// The number of inputs that the function takes.
    pub fn inputs(&self) -> (n: usize)
        ensures
            n == self@.arity,
    {
        self.inputs
    }

    /// The outputs of the function, one for each row of its table.
    pub fn values(&self) -> (outputs: &Vec<bool>)
        ensures
            outputs@ == self@.outputs,
            self@.wf(),
    {
        proof {
            use_type_invariant(self);
        }
        &self.values
    }

    /// Applies the function to the top of the stack. The inputs leave the
    /// stack, and the output comes back as a stack of one value. On a stack
    /// that is too short nothing changes and the result is `None`.
    pub fn eval(&self, stack: &mut Stack) -> (out: Option<Stack>)
        ensures
            out is Some <==> self@.arity <= old(stack)@.len(),
            out is None ==> final(stack)@ == old(stack)@,
            out matches Some(top) ==> {
                let kept = old(stack)@.len() - self@.arity;
                &&& final(stack)@ == old(stack)@.take(kept)
                &&& top@ == seq![self@.output(old(stack)@.skip(kept))]
                &&& Some(final(stack)@ + top@) == self@.apply(old(stack)@)
            },
    {
        let rows = self.values.len();
        proof {
            use_type_invariant(self);
            lemma_pow2_bounded(self.inputs as nat);
        }
        if stack.len() < self.inputs {
            return None;
        }
        let input = stack.split_off(stack.len() - self.inputs);
        proof {
            lemma_value_of_bound(input@);
        }
        let index = rows - 1 - spell(&input);
        let mut top: Vec<bool> = Vec::new();
        top.push(self.values[index]);
        assert(top@ =~= seq![self@.output(input@)]);
        assert(stack@ + top@ =~= stack@.push(self@.output(input@)));
        Some(top)
    }
}

/// A power of two that fits a machine word has an exponent below the word
/// size.
pub proof fn lemma_pow2_bounded(e: nat)
    requires
        pow2(e) <= usize::MAX,
    ensures
        e < usize::BITS,
{
    vstd::layout::unsigned_int_max_values();
    if e > usize::BITS {
        lemma_pow2_strictly_increases(usize::BITS as nat, e);
    }
}

/// The character that stands for a truth value in a printed table.
pub open spec fn letter(b: bool) -> char {
    if b {
        't'
    } else {
        'f'
    }
}

/// The letters of a sequence of truth values.
pub open spec fn letters(values: Seq<bool>) -> Seq<char> {
    Seq::new(values.len(), |i: int| letter(values[i]))
}

/// A table as it is printed: its letters in groups of four, with a `.`
/// between one group and the next.
pub open spec fn grouped(values: Seq<bool>) -> Seq<char>
    decreases values.len(),
{
    if values.len() == 0 {
        Seq::empty()
    } else {
        let before = grouped(values.drop_last());
        let at = values.len() - 1;
        if at > 0 && at % 4 == 0 {
            before.push('.').push(letter(values.last()))
        } else {
            before.push(letter(values.last()))
        }
    }
}

/// A text with its group separators taken out.
pub open spec fn without_dots(text: Seq<char>) -> Seq<char>
    decreases text.len(),
{
    if text.len() == 0 {
        Seq::empty()
    } else if text.last() == '.' {
        without_dots(text.drop_last())
    } else {
        without_dots(text.drop_last()).push(text.last())
    }
}

/// Taking the separators out of a printed table leaves its letters.
pub proof fn lemma_without_dots_grouped(values: Seq<bool>)
    ensures
        without_dots(grouped(values)) == letters(values),
    decreases values.len(),
{
    if values.len() == 0 {
        assert(letters(values) =~= Seq::<char>::empty());
    } else {
        let before = grouped(values.drop_last());
        let last = letter(values.last());
        lemma_without_dots_grouped(values.drop_last());
        assert(before.push('.').drop_last() =~= before);
        assert(without_dots(before.push('.')) == without_dots(before));
        let dotted = before.push('.');
        assert(dotted.push(last).drop_last() =~= dotted);
        assert(without_dots(dotted.push(last)) == without_dots(dotted).push(last));
        assert(before.push(last).drop_last() =~= before);
        assert(without_dots(before.push(last)) == without_dots(before).push(last));
        assert(letters(values.drop_last()).push(last) =~= letters(values));
    }
}

/// A literal written with `t` and `f` comes back from its own table letter
/// for letter: printing the table that the literal spells, and taking the
/// group separators out, gives the literal.
pub proof fn lemma_literal_round_trip(s: Seq<char>)
    requires
        is_table_literal(s),
        forall|i: int| 0 <= i < s.len() ==> #[trigger] s[i] == 't' || s[i] == 'f',
    ensures
        parse_table(s) matches Some(table) && without_dots(grouped(table.outputs)) == s,
{
    lemma_without_dots_grouped(truths(s));
    assert(letters(truths(s)) =~= s);
}

/// A printed table, with the group separators taken out, is a literal that
/// spells the same function.
pub proof fn lemma_table_round_trip(table: Table)
    requires
        table.wf(),
    ensures
        parse_table(without_dots(grouped(table.outputs))) == Some(table),
{
    lemma_without_dots_grouped(table.outputs);
    let s = letters(table.outputs);
    assert(s.len() == pow2(table.arity));
    assert(truths(s) =~= table.outputs);
    let n = choose|n: nat| s.len() == pow2(n);
    lemma_pow2_injective(n, table.arity);
}

/// Prints a table: `t` and `f` in groups of four, with a `.` between groups.
pub fn fmt_func(values: &Vec<bool>) -> (text: String)
    ensures
        text@ == grouped(values@),
{
    let mut text = String::new();
    let mut k: usize = 0;
    while k < values.len()
        invariant
            k <= values@.len(),
            text@ == grouped(values@.take(k as int)),
        decreases values@.len() - k,
    {
        assert(values@.take(k + 1).drop_last() =~= values@.take(k as int));
        if k > 0 && k % 4 == 0 {
            text.push('.');
        }
        if values[k] {
            text.push('t');
        } else {
            text.push('f');
        }
        k = k + 1;
    }
    assert(values@.take(k as int) =~= values@);
    text
}

/// Every number is below the power of two that it names.
pub proof fn lemma_below_pow2(n: nat)
    ensures
        n < pow2(n),
    decreases n,
{
    lemma2_to64();
    if n > 0 {
        lemma_below_pow2((n - 1) as nat);
        lemma_pow2_unfold(n);
    }
}

/// Zero is no power of two.
pub proof fn lemma_not_pow2_zero()
    ensures
        forall|n: nat| 0 != #[trigger] pow2(n),
{
    assert forall|n: nat| 0 != #[trigger] pow2(n) by {
        lemma_pow2_pos(n);
    }
}

} // verus!
