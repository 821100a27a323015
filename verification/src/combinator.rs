//! Stack combinators: words that reshape the top of the stack.
//!
//! A combinator is written as one tag for each value it takes. What a tag
//! does with its value decides in which of three groups the value comes back.

use crate::literal::Stack;
use crate::text::chars_of;
use vstd::prelude::*;

verus! {

/// What a combinator does with one of its inputs.
#[derive(Debug, PartialEq, Eq, Clone, Copy, Structural)]
pub enum SC {
    /// `-`: the value stays.
    Take,
    /// `'`: the value stays, and a copy of it goes on top.
    Over,
    /// `*`: the value moves below the values that stay.
    Swap,
    /// `#`: the value is thrown away.
    Drop,
}

/// The tag that a character denotes, if it denotes one.
pub open spec fn tag_of(c: char) -> Option<SC> {
    if c == '-' {
        Some(SC::Take)
    } else if c == '\'' {
        Some(SC::Over)
    } else if c == '*' {
        Some(SC::Swap)
    } else if c == '#' {
        Some(SC::Drop)
    } else {
        None
    }
}

/// A word is a combinator literal when it is not empty and each of its
/// characters is a tag.
pub open spec fn is_plan_literal(s: Seq<char>) -> bool {
    &&& s.len() > 0
    &&& forall|i: int| 0 <= i < s.len() ==> tag_of(#[trigger] s[i]) is Some
}

/// The tags that the characters of a word denote.
pub open spec fn tags(s: Seq<char>) -> Seq<SC> {
    Seq::new(s.len(), |i: int| tag_of(s[i]).unwrap())
}

/// The plan that a word spells, if the word is a combinator literal.
pub open spec fn parse_plan(s: Seq<char>) -> Option<Seq<SC>> {
    if is_plan_literal(s) {
        Some(tags(s))
    } else {
        None
    }
}

/// How many values one tag gives back.
pub open spec fn yield_of(tag: SC) -> nat {
    match tag {
        SC::Take => 1,
        SC::Over => 2,
        SC::Swap => 1,
        SC::Drop => 0,
    }
}

/// How many values a plan gives back.
pub open spec fn produced(plan: Seq<SC>) -> nat
    decreases plan.len(),
{
    if plan.len() == 0 {
        0
    } else {
        produced(plan.drop_last()) + yield_of(plan.last())
    }
}

/// The values whose tag is `Swap`, in the order in which they came.
pub open spec fn swapped(plan: Seq<SC>, input: Seq<bool>) -> Seq<bool>
    decreases plan.len(),
{
    if plan.len() == 0 {
        Seq::empty()
    } else if plan.last() == SC::Swap {
        swapped(plan.drop_last(), input.drop_last()).push(input.last())
    } else {
        swapped(plan.drop_last(), input.drop_last())
    }
}

/// The values whose tag is `Take` or `Over`, in the order in which they came.
pub open spec fn kept(plan: Seq<SC>, input: Seq<bool>) -> Seq<bool>
    decreases plan.len(),
{
    if plan.len() == 0 {
        Seq::empty()
    } else if plan.last() == SC::Take || plan.last() == SC::Over {
        kept(plan.drop_last(), input.drop_last()).push(input.last())
    } else {
        kept(plan.drop_last(), input.drop_last())
    }
}

/// The values whose tag is `Over`, in the order in which they came.
pub open spec fn copied(plan: Seq<SC>, input: Seq<bool>) -> Seq<bool>
    decreases plan.len(),
{
    if plan.len() == 0 {
        Seq::empty()
    } else if plan.last() == SC::Over {
        copied(plan.drop_last(), input.drop_last()).push(input.last())
    } else {
        copied(plan.drop_last(), input.drop_last())
    }
}

/// What a plan makes of its inputs: the swapped values, then the values that
/// stay, then the copies.
pub open spec fn shuffle(plan: Seq<SC>, input: Seq<bool>) -> Seq<bool> {
    swapped(plan, input) + kept(plan, input) + copied(plan, input)
}

/// What a plan leaves of a stack: it takes one value for each tag off the
/// top, oldest first, and puts the shuffled values in their place. Nothing is
/// defined on a stack that is too short.
pub open spec fn apply_plan(plan: Seq<SC>, stack: Seq<bool>) -> Option<Seq<bool>> {
    if stack.len() < plan.len() {
        None
    } else {
        let rest = stack.len() - plan.len();
        Some(stack.take(rest) + shuffle(plan, stack.skip(rest)))
    }
}

/// A plan gives back as many values as `produced` counts.
pub proof fn lemma_shuffle_len(plan: Seq<SC>, input: Seq<bool>)
    requires
        input.len() == plan.len(),
    ensures
        shuffle(plan, input).len() == produced(plan),
        swapped(plan, input).len() + kept(plan, input).len() + copied(plan, input).len()
            == produced(plan),
    decreases plan.len(),
{
    if plan.len() > 0 {
        lemma_shuffle_len(plan.drop_last(), input.drop_last());
    }
}

/// The plan `-*` exchanges the two values on top.
pub proof fn lemma_swap_exchanges(a: bool, b: bool)
    ensures
        shuffle(seq![SC::Take, SC::Swap], seq![a, b]) == seq![b, a],
{
    let plan = seq![SC::Take, SC::Swap];
    let input = seq![a, b];
    reveal_with_fuel(swapped, 3);
    reveal_with_fuel(kept, 3);
    reveal_with_fuel(copied, 3);
    assert(plan.drop_last() =~= seq![SC::Take]);
    assert(input.drop_last() =~= seq![a]);
    assert(plan.drop_last().drop_last() =~= Seq::<SC>::empty());
    assert(shuffle(plan, input) =~= seq![b, a]);
}

/// The plan `'` leaves its value and puts a copy of it on top.
pub proof fn lemma_dup_doubles(a: bool)
    ensures
        shuffle(seq![SC::Over], seq![a]) == seq![a, a],
{
    let plan = seq![SC::Over];
    let input = seq![a];
    reveal_with_fuel(swapped, 2);
    reveal_with_fuel(kept, 2);
    reveal_with_fuel(copied, 2);
    assert(plan.drop_last() =~= Seq::<SC>::empty());
    assert(shuffle(plan, input) =~= seq![a, a]);
}

/// The tag that a character denotes, if it denotes one.
pub fn tag(c: char) -> (t: Option<SC>)
    ensures
        t == tag_of(c),
{
    if c == '-' {
        Some(SC::Take)
    } else if c == '\'' {
        Some(SC::Over)
    } else if c == '*' {
        Some(SC::Swap)
    } else if c == '#' {
        Some(SC::Drop)
    } else {
        None
    }
}

/// A stack combinator: one tag for each value that it takes.
#[derive(Debug, PartialEq)]
pub struct StackC {
    inputs: usize,
    outputs: usize,
    values: Vec<SC>,
}

impl View for StackC {
    type V = Seq<SC>;

    closed spec fn view(&self) -> Seq<SC> {
        self.values@
    }
}

impl StackC {
    #[verifier::type_invariant]
    spec fn inv(self) -> bool {
        &&& self.inputs == self.values@.len()
        &&& self.outputs == produced(self.values@)
    }

    /// Reads a combinator literal. Any other word gives `None`, and so does
    /// a literal that gives back more values than a machine word can count.
    pub fn from_str(s: &str) -> (parsed: Option<StackC>)
        ensures
            parsed is Some <==> is_plan_literal(s@) && produced(tags(s@)) <= usize::MAX,
            parsed matches Some(c) ==> Some(c@) == parse_plan(s@),
    {
        let chars = chars_of(s);
        let inputs = chars.len();
        if inputs == 0 {
            return None;
        }
        let mut values: Vec<SC> = Vec::new();
        let mut outputs: usize = 0;
        let mut k: usize = 0;
        while k < inputs
            invariant
                k <= inputs,
                inputs == chars@.len(),
                chars@ == s@,
                values@ == tags(s@).take(k as int),
                outputs == produced(values@),
                forall|i: int| 0 <= i < k ==> tag_of(#[trigger] s@[i]) is Some,
            decreases inputs - k,
        {
            let ghost before = values@;
            let gain: usize = match tag(chars[k]) {
                Some(SC::Take) => {
                    values.push(SC::Take);
                    1
                },
                Some(SC::Over) => {
                    values.push(SC::Over);
                    2
                },
                Some(SC::Swap) => {
                    values.push(SC::Swap);
                    1
                },
                Some(SC::Drop) => {
                    values.push(SC::Drop);
                    0
                },
                None => {
                    return None;
                },
            };
            assert(values@.drop_last() =~= before);
            assert(values@ =~= tags(s@).take(k + 1));
            if gain > usize::MAX - outputs {
                proof {
                    lemma_produced_grows(tags(s@), k + 1);
                }
                return None;
            }
            outputs = outputs + gain;
            k = k + 1;
        }
        assert(values@ =~= tags(s@));
        Some(StackC { inputs, outputs, values })
    }

    /// The number of values that the combinator takes.
    pub fn inputs(&self) -> (n: usize)
        ensures
            n == self@.len(),
    {
        proof {
            use_type_invariant(self);
        }
        self.inputs
    }

    /// The number of values that the combinator gives back.
    pub fn outputs(&self) -> (n: usize)
        ensures
            n == produced(self@),
    {
        proof {
            use_type_invariant(self);
        }
        self.outputs
    }

    /// The tags of the combinator, one for each input.
    pub fn values(&self) -> (plan: &Vec<SC>)
        ensures
            plan@ == self@,
    {
        &self.values
    }

    /// Applies the combinator to the top of the stack. The inputs leave the
    /// stack, and what the plan makes of them comes back as a stack of its
    /// own. On a stack that is too short nothing changes and the result is
    /// `None`.
    pub fn eval(&self, stack: &mut Stack) -> (out: Option<Stack>)
        ensures
            out is Some <==> self@.len() <= old(stack)@.len(),
            out is None ==> final(stack)@ == old(stack)@,
            out matches Some(top) ==> {
                let rest = old(stack)@.len() - self@.len();
                &&& final(stack)@ == old(stack)@.take(rest)
                &&& top@ == shuffle(self@, old(stack)@.skip(rest))
                &&& Some(final(stack)@ + top@) == apply_plan(self@, old(stack)@)
            },
    {
        proof {
            use_type_invariant(self);
        }
        let uinputs = self.inputs;
        if stack.len() < uinputs {
            return None;
        }
        let input = stack.split_off(stack.len() - uinputs);
        let mut main: Vec<bool> = Vec::new();
        let mut over: Vec<bool> = Vec::new();
        let mut swap: Vec<bool> = Vec::new();
        let mut i: usize = 0;
        while i < uinputs
            invariant
                i <= uinputs,
                uinputs == self.values@.len(),
                uinputs == input@.len(),
                swap@ == swapped(self.values@.take(i as int), input@.take(i as int)),
                main@ == kept(self.values@.take(i as int), input@.take(i as int)),
                over@ == copied(self.values@.take(i as int), input@.take(i as int)),
            decreases uinputs - i,
        {
            assert(self.values@.take(i + 1).drop_last() =~= self.values@.take(i as int));
            assert(input@.take(i + 1).drop_last() =~= input@.take(i as int));
            match self.values[i] {
                SC::Take => {
                    main.push(input[i]);
                },
                SC::Over => {
                    main.push(input[i]);
                    over.push(input[i]);
                },
                SC::Swap => {
                    swap.push(input[i]);
                },
                SC::Drop => {},
            }
            i = i + 1;
        }
        assert(self.values@.take(i as int) =~= self.values@);
        assert(input@.take(i as int) =~= input@);
        swap.append(&mut main);
        swap.append(&mut over);
        Some(swap)
    }
}

/// A longer plan gives back at least as many values as any of its beginnings.
pub proof fn lemma_produced_grows(plan: Seq<SC>, k: int)
    requires
        0 <= k <= plan.len(),
    ensures
        produced(plan.take(k)) <= produced(plan),
    decreases plan.len() - k,
{
    if k < plan.len() {
        lemma_produced_grows(plan, k + 1);
        assert(plan.take(k + 1).drop_last() =~= plan.take(k));
    } else {
        assert(plan.take(k) =~= plan);
    }
}

} // verus!
