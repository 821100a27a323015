//! The alias dictionary: short names for operator literals.

use crate::text::{
    chars_of,
    is_word,
    lemma_lines_fresh,
    lemma_lines_push_piece,
    lemma_words_pair,
    lines,
    split_lines,
    split_words,
    string_of,
    words,
};
use vstd::prelude::*;

verus! {

/// The standard aliases, one to a line: a name, then what it stands for.
pub const STDENV: &'static str = r#"
help ?

true t
false f

lf ff
not ft
id tf
lt tt

cont ffff
nor ffft
cnonimpl fftf
pneg fftt
nonimpl ftff
qneg ftft
xor fttf
nand fttt
and tfff
xnor tfft
q tftf
impl tftt
p ttff
cimpl ttft
or tttf
taut tttt

drop #

dup '
over '-
2dup ''
2over ''--

swap -*
2swap --**
rot -**
"#;

/// A mapping from words to what they stand for.
pub type Aliases = Map<Seq<char>, Seq<char>>;

/// The mapping that a list of definitions gives: a later definition of a
/// name replaces an earlier one.
pub open spec fn defined(pairs: Seq<(Seq<char>, Seq<char>)>) -> Aliases
    decreases pairs.len(),
{
    if pairs.len() == 0 {
        Map::empty()
    } else {
        defined(pairs.drop_last()).insert(pairs.last().0, pairs.last().1)
    }
}

/// The mapping that a list of lines gives: each line of exactly two words
/// defines its first word as its second, and every other line is passed over.
pub open spec fn aliases_of_lines(ls: Seq<Seq<char>>) -> Aliases
    decreases ls.len(),
{
    if ls.len() == 0 {
        Map::empty()
    } else {
        let before = aliases_of_lines(ls.drop_last());
        let ws = words(ls.last());
        if ws.len() == 2 {
            before.insert(ws[0], ws[1])
        } else {
            before
        }
    }
}

/// The mapping that a text of definitions gives.
pub open spec fn aliases_of(text: Seq<char>) -> Aliases {
    aliases_of_lines(lines(text))
}

/// An empty text defines nothing.
pub proof fn lemma_aliases_of_nothing()
    ensures
        aliases_of(Seq::empty()) == Map::<Seq<char>, Seq<char>>::empty(),
{
    let one = lines(Seq::empty());
    assert(one.drop_last() =~= Seq::<Seq<char>>::empty());
    assert(words(one.last()).len() == 0);
    reveal_with_fuel(aliases_of_lines, 2);
}

/// A line feed behind a text of definitions defines nothing new.
pub proof fn lemma_line_feed(text: Seq<char>, end: int) -> (start: int)
    requires
        0 < end <= text.len(),
        text[end - 1] == '\n',
    ensures
        start == end - 1,
        aliases_of(text.take(end)) == aliases_of(text.take(start)),
{
    let before = text.take(end - 1);
    assert(text.take(end).drop_last() =~= before);
    assert(text.take(end).last() == '\n');
    let ls = lines(before).push(Seq::empty());
    assert(lines(text.take(end)) == ls);
    assert(ls.drop_last() =~= lines(before));
    assert(words(ls.last()).len() == 0);
    end - 1
}

/// A line of two words behind a text of definitions defines its first word
/// as its second.
pub proof fn lemma_definition_line(text: Seq<char>, end: int, a: Seq<char>, b: Seq<char>) -> (start:
    int)
    requires
        is_word(a),
        is_word(b),
        a.len() + b.len() + 2 <= end <= text.len(),
        end == a.len() + b.len() + 2 || text[end - a.len() - b.len() - 3] == '\n',
        text.subrange(end - a.len() - b.len() - 2, end - b.len() - 2) =~= a,
        text[end - b.len() - 2] == ' ',
        text.subrange(end - b.len() - 1, end - 1) =~= b,
        text[end - 1] == '\n',
    ensures
        start == end - a.len() - b.len() - 2,
        aliases_of(text.take(end)) == aliases_of(text.take(start)).insert(a, b),
{
    let start = end - a.len() - b.len() - 2;
    let before = text.take(start);
    let line = a + seq![' '] + b;
    assert(text.take(end) =~= (before + line).push('\n')) by {
        assert forall|i: int| 0 <= i < end implies text.take(end)[i] == (before + line).push(
            '\n',
        )[i] by {
            if start <= i < start + a.len() {
                assert(text.subrange(start, end - b.len() - 2)[i - start] == a[i - start]);
            } else if end - b.len() - 1 <= i < end - 1 {
                let at = end - b.len() - 1;
                assert(text.subrange(at, end - 1)[i - at] == b[i - at]);
            }
        }
    }
    assert forall|i: int| 0 <= i < line.len() implies #[trigger] line[i] != '\n' by {
        if i < a.len() {
            assert(line[i] == a[i]);
        } else if i > a.len() {
            assert(line[i] == b[i - a.len() - 1]);
        }
    }
    lemma_lines_fresh(before);
    lemma_lines_push_piece(before, line);
    lemma_words_pair(a, b);
    let kept = lines(before).drop_last();
    assert(Seq::<char>::empty() + line =~= line);
    assert(lines(before + line) == kept.push(line));
    assert((before + line).push('\n').drop_last() =~= before + line);
    let ls = kept.push(line).push(Seq::empty());
    assert(lines(text.take(end)) == ls);
    assert(ls.drop_last() =~= kept.push(line));
    assert(kept.push(line).drop_last() =~= kept);
    assert(words(ls.last()).len() == 0);
    assert(kept.push(Seq::<char>::empty()) =~= lines(before));
    assert(kept.push(Seq::<char>::empty()).drop_last() =~= kept);
    reveal_with_fuel(aliases_of_lines, 2);
    start
}

/// The standard aliases, name by name.
pub open spec fn standard_aliases() -> Aliases {
    Map::<Seq<char>, Seq<char>>::empty()
        .insert("help"@, "?"@)
        .insert("true"@, "t"@)
        .insert("false"@, "f"@)
        .insert("lf"@, "ff"@)
        .insert("not"@, "ft"@)
        .insert("id"@, "tf"@)
        .insert("lt"@, "tt"@)
        .insert("cont"@, "ffff"@)
        .insert("nor"@, "ffft"@)
        .insert("cnonimpl"@, "fftf"@)
        .insert("pneg"@, "fftt"@)
        .insert("nonimpl"@, "ftff"@)
        .insert("qneg"@, "ftft"@)
        .insert("xor"@, "fttf"@)
        .insert("nand"@, "fttt"@)
        .insert("and"@, "tfff"@)
        .insert("xnor"@, "tfft"@)
        .insert("q"@, "tftf"@)
        .insert("impl"@, "tftt"@)
        .insert("p"@, "ttff"@)
        .insert("cimpl"@, "ttft"@)
        .insert("or"@, "tttf"@)
        .insert("taut"@, "tttt"@)
        .insert("drop"@, "#"@)
        .insert("dup"@, "'"@)
        .insert("over"@, "'-"@)
        .insert("2dup"@, "''"@)
        .insert("2over"@, "''--"@)
        .insert("swap"@, "-*"@)
        .insert("2swap"@, "--**"@)
        .insert("rot"@, "-**"@)
}

/// The text of the standard aliases defines just the standard aliases.
#[verifier::rlimit(50)]
pub proof fn lemma_standard_aliases()
    ensures
        aliases_of(STDENV@) == standard_aliases(),
{
    reveal_strlit(r#"
help ?

true t
false f

lf ff
not ft
id tf
lt tt

cont ffff
nor ffft
cnonimpl fftf
pneg fftt
nonimpl ftff
qneg ftft
xor fttf
nand fttt
and tfff
xnor tfft
q tftf
impl tftt
p ttff
cimpl ttft
or tttf
taut tttt

drop #

dup '
over '-
2dup ''
2over ''--

swap -*
2swap --**
rot -**
"#);
    reveal_strlit("help");
    reveal_strlit("?");
    reveal_strlit("true");
    reveal_strlit("t");
    reveal_strlit("false");
    reveal_strlit("f");
    reveal_strlit("lf");
    reveal_strlit("ff");
    reveal_strlit("not");
    reveal_strlit("ft");
    reveal_strlit("id");
    reveal_strlit("tf");
    reveal_strlit("lt");
    reveal_strlit("tt");
    reveal_strlit("cont");
    reveal_strlit("ffff");
    reveal_strlit("nor");
    reveal_strlit("ffft");
    reveal_strlit("cnonimpl");
    reveal_strlit("fftf");
    reveal_strlit("pneg");
    reveal_strlit("fftt");
    reveal_strlit("nonimpl");
    reveal_strlit("ftff");
    reveal_strlit("qneg");
    reveal_strlit("ftft");
    reveal_strlit("xor");
    reveal_strlit("fttf");
    reveal_strlit("nand");
    reveal_strlit("fttt");
    reveal_strlit("and");
    reveal_strlit("tfff");
    reveal_strlit("xnor");
    reveal_strlit("tfft");
    reveal_strlit("q");
    reveal_strlit("tftf");
    reveal_strlit("impl");
    reveal_strlit("tftt");
    reveal_strlit("p");
    reveal_strlit("ttff");
    reveal_strlit("cimpl");
    reveal_strlit("ttft");
    reveal_strlit("or");
    reveal_strlit("tttf");
    reveal_strlit("taut");
    reveal_strlit("tttt");
    reveal_strlit("drop");
    reveal_strlit("#");
    reveal_strlit("dup");
    reveal_strlit("'");
    reveal_strlit("over");
    reveal_strlit("'-");
    reveal_strlit("2dup");
    reveal_strlit("''");
    reveal_strlit("2over");
    reveal_strlit("''--");
    reveal_strlit("swap");
    reveal_strlit("-*");
    reveal_strlit("2swap");
    reveal_strlit("--**");
    reveal_strlit("rot");
    reveal_strlit("-**");
    let text = STDENV@;
    let e = text.len() as int;
    assert(text.take(e) =~= text);
    let e = lemma_definition_line(text, e, "rot"@, "-**"@);
    let e = lemma_definition_line(text, e, "2swap"@, "--**"@);
    let e = lemma_definition_line(text, e, "swap"@, "-*"@);
    let e = lemma_line_feed(text, e);
    let e = lemma_definition_line(text, e, "2over"@, "''--"@);
    let e = lemma_definition_line(text, e, "2dup"@, "''"@);
    let e = lemma_definition_line(text, e, "over"@, "'-"@);
    let e = lemma_definition_line(text, e, "dup"@, "'"@);
    let e = lemma_line_feed(text, e);
    let e = lemma_definition_line(text, e, "drop"@, "#"@);
    let e = lemma_line_feed(text, e);
    let e = lemma_definition_line(text, e, "taut"@, "tttt"@);
    let e = lemma_definition_line(text, e, "or"@, "tttf"@);
    let e = lemma_definition_line(text, e, "cimpl"@, "ttft"@);
    let e = lemma_definition_line(text, e, "p"@, "ttff"@);
    let e = lemma_definition_line(text, e, "impl"@, "tftt"@);
    let e = lemma_definition_line(text, e, "q"@, "tftf"@);
    let e = lemma_definition_line(text, e, "xnor"@, "tfft"@);
    let e = lemma_definition_line(text, e, "and"@, "tfff"@);
    let e = lemma_definition_line(text, e, "nand"@, "fttt"@);
    let e = lemma_definition_line(text, e, "xor"@, "fttf"@);
    let e = lemma_definition_line(text, e, "qneg"@, "ftft"@);
    let e = lemma_definition_line(text, e, "nonimpl"@, "ftff"@);
    let e = lemma_definition_line(text, e, "pneg"@, "fftt"@);
    let e = lemma_definition_line(text, e, "cnonimpl"@, "fftf"@);
    let e = lemma_definition_line(text, e, "nor"@, "ffft"@);
    let e = lemma_definition_line(text, e, "cont"@, "ffff"@);
    let e = lemma_line_feed(text, e);
    let e = lemma_definition_line(text, e, "lt"@, "tt"@);
    let e = lemma_definition_line(text, e, "id"@, "tf"@);
    let e = lemma_definition_line(text, e, "not"@, "ft"@);
    let e = lemma_definition_line(text, e, "lf"@, "ff"@);
    let e = lemma_line_feed(text, e);
    let e = lemma_definition_line(text, e, "false"@, "f"@);
    let e = lemma_definition_line(text, e, "true"@, "t"@);
    let e = lemma_line_feed(text, e);
    let e = lemma_definition_line(text, e, "help"@, "?"@);
    let e = lemma_line_feed(text, e);
    assert(text.take(e) =~= Seq::<char>::empty());
    lemma_aliases_of_nothing();
}

/// The word reached from `w` by replacing it with what it stands for, at most
/// `hops` times, and stopping early at a word that stands for nothing.
pub open spec fn follow(m: Aliases, w: Seq<char>, hops: nat) -> Seq<char>
    decreases hops,
{
    if hops > 0 && m.contains_key(w) {
        follow(m, m[w], (hops - 1) as nat)
    } else {
        w
    }
}

/// The definitions that are used on the way from `w`, in order, over at most
/// `hops` hops: each a word and what it stands for.
pub open spec fn chain(m: Aliases, w: Seq<char>, hops: nat) -> Seq<(Seq<char>, Seq<char>)>
    decreases hops,
{
    if hops > 0 && m.contains_key(w) {
        seq![(w, m[w])] + chain(m, m[w], (hops - 1) as nat)
    } else {
        Seq::empty()
    }
}

/// Following `a` hops and then `b` more is following `a + b` hops.
pub proof fn lemma_follow_adds(m: Aliases, w: Seq<char>, a: nat, b: nat)
    ensures
        follow(m, w, a + b) == follow(m, follow(m, w, a), b),
    decreases a,
{
    if a > 0 && m.contains_key(w) {
        lemma_follow_adds(m, m[w], (a - 1) as nat, b);
    } else if a > 0 {
        lemma_follow_stays(m, w, b);
        lemma_follow_stays(m, w, a + b);
    }
}

/// A word that stands for nothing is where every chain from it stays.
pub proof fn lemma_follow_stays(m: Aliases, w: Seq<char>, hops: nat)
    requires
        !m.contains_key(w),
    ensures
        follow(m, w, hops) == w,
{
}

/// A chain that has ended stays where it ended.
pub proof fn lemma_follow_ended(m: Aliases, w: Seq<char>, at: nat, later: nat)
    requires
        !m.contains_key(follow(m, w, at)),
        at <= later,
    ensures
        follow(m, w, later) == follow(m, w, at),
{
    lemma_follow_adds(m, w, at, (later - at) as nat);
    lemma_follow_stays(m, follow(m, w, at), (later - at) as nat);
}

/// The first place at which a chain that ends has ended.
pub open spec fn first_end(m: Aliases, w: Seq<char>, at: nat) -> nat
    decreases at,
{
    if at > 0 && !m.contains_key(follow(m, w, (at - 1) as nat)) {
        first_end(m, w, (at - 1) as nat)
    } else {
        at
    }
}

/// Before its first end a chain passes only words that stand for something.
pub proof fn lemma_first_end(m: Aliases, w: Seq<char>, at: nat)
    requires
        !m.contains_key(follow(m, w, at)),
    ensures
        first_end(m, w, at) <= at,
        !m.contains_key(follow(m, w, first_end(m, w, at))),
        forall|k: nat| k < first_end(m, w, at) ==> m.contains_key(#[trigger] follow(m, w, k)),
    decreases at,
{
    if at > 0 && !m.contains_key(follow(m, w, (at - 1) as nat)) {
        lemma_first_end(m, w, (at - 1) as nat);
    } else {
        assert forall|k: nat| k < at implies m.contains_key(#[trigger] follow(m, w, k)) by {
            if !m.contains_key(follow(m, w, k)) {
                lemma_follow_ended(m, w, k, (at - 1) as nat);
            }
        }
    }
}

/// A chain that ends at all has ended after as many hops as there are names:
/// it cannot pass one name twice, since from there it would go round for
/// ever.
pub proof fn lemma_chain_is_short(m: Aliases, w: Seq<char>, at: nat)
    requires
        m.dom().finite(),
        !m.contains_key(follow(m, w, at)),
    ensures
        first_end(m, w, at) <= m.dom().len(),
        follow(m, w, m.dom().len()) == follow(m, w, at),
{
    lemma_first_end(m, w, at);
    let end = first_end(m, w, at);
    let passed = Seq::new(end, |k: int| follow(m, w, k as nat));
    assert forall|a: int, b: int| 0 <= a < b < passed.len() implies passed[a] != passed[b] by {
        if passed[a] == passed[b] {
            let rest = (end - b) as nat;
            lemma_follow_adds(m, w, a as nat, rest);
            lemma_follow_adds(m, w, b as nat, rest);
            assert(follow(m, w, (a + rest) as nat) == follow(m, w, end));
            assert(m.contains_key(follow(m, w, (a + rest) as nat)));
        }
    }
    assert(passed.no_duplicates());
    passed.unique_seq_to_set();
    assert forall|x: Seq<char>| passed.to_set().contains(x) implies m.dom().contains(x) by {
        let k = choose|k: int| 0 <= k < passed.len() && passed[k] == x;
        assert(m.contains_key(follow(m, w, k as nat)));
    }
    vstd::set_lib::lemma_len_subset(passed.to_set(), m.dom());
    lemma_follow_ended(m, w, end, at);
    lemma_follow_ended(m, w, end, m.dom().len());
}

/// A list of definitions defines finitely many names.
pub proof fn lemma_defined_finite(pairs: Seq<(Seq<char>, Seq<char>)>)
    ensures
        defined(pairs).dom().finite(),
    decreases pairs.len(),
{
    if pairs.len() > 0 {
        lemma_defined_finite(pairs.drop_last());
    }
}

/// Whether no name is defined twice in a list of definitions.
pub open spec fn distinct_names(pairs: Seq<(Seq<char>, Seq<char>)>) -> bool {
    forall|i: int, j: int|
        0 <= i < j < pairs.len() ==> (#[trigger] pairs[i]).0 != (#[trigger] pairs[j]).0
}

/// The last definition of a name is the one that counts.
pub proof fn lemma_defined_last(pairs: Seq<(Seq<char>, Seq<char>)>, at: int, w: Seq<char>)
    requires
        0 <= at <= pairs.len(),
        forall|j: int| at <= j < pairs.len() ==> (#[trigger] pairs[j]).0 != w,
    ensures
        at > 0 && pairs[at - 1].0 == w ==> defined(pairs).contains_key(w) && defined(pairs)[w]
            == pairs[at - 1].1,
        at == 0 ==> !defined(pairs).contains_key(w),
    decreases pairs.len(),
{
    if pairs.len() > at {
        lemma_defined_last(pairs.drop_last(), at, w);
    }
}

/// A list that defines no name twice defines as many names as it has
/// entries.
pub proof fn lemma_defined_len(pairs: Seq<(Seq<char>, Seq<char>)>)
    requires
        distinct_names(pairs),
    ensures
        defined(pairs).dom().finite(),
        defined(pairs).dom().len() == pairs.len(),
    decreases pairs.len(),
{
    if pairs.len() > 0 {
        let before = pairs.drop_last();
        assert(distinct_names(before)) by {
            assert forall|i: int, j: int| 0 <= i < j < before.len() implies (#[trigger] before[i]).0
                != (#[trigger] before[j]).0 by {
                assert(before[i] == pairs[i] && before[j] == pairs[j]);
            }
        }
        lemma_defined_len(before);
        assert forall|j: int| 0 <= j < before.len() implies (#[trigger] before[j]).0
            != pairs.last().0 by {
            assert(before[j] == pairs[j]);
        }
        lemma_defined_last(before, 0, pairs.last().0);
    }
}

/// Giving a name a new target in place is defining it anew.
pub proof fn lemma_defined_update(pairs: Seq<(Seq<char>, Seq<char>)>, at: int, target: Seq<char>)
    requires
        distinct_names(pairs),
        0 <= at < pairs.len(),
    ensures
        defined(pairs.update(at, (pairs[at].0, target))) == defined(pairs).insert(
            pairs[at].0,
            target,
        ),
    decreases pairs.len(),
{
    let name = pairs[at].0;
    let changed = pairs.update(at, (name, target));
    let before = pairs.drop_last();
    if at == pairs.len() - 1 {
        assert(changed.drop_last() =~= before);
        assert(defined(changed) =~= defined(pairs).insert(name, target));
    } else {
        assert(distinct_names(before)) by {
            assert forall|i: int, j: int| 0 <= i < j < before.len() implies (#[trigger] before[i]).0
                != (#[trigger] before[j]).0 by {
                assert(before[i] == pairs[i] && before[j] == pairs[j]);
            }
        }
        lemma_defined_update(before, at, target);
        assert(changed.drop_last() =~= before.update(at, (name, target)));
        assert(changed.last() == pairs.last());
        assert(pairs[at].0 != pairs[pairs.len() - 1].0);
        assert(defined(changed) =~= defined(pairs).insert(name, target));
    }
}

/// The word that `w` stands for in the end: what is reached from it by
/// following definitions until a word stands for nothing. Where the
/// definitions go round in a circle, it is the word reached after as many
/// hops as there are names.
pub open spec fn resolve(m: Aliases, w: Seq<char>) -> Seq<char> {
    follow(m, w, m.dom().len())
}

/// The definitions that are used on the way from `w` to `resolve(m, w)`.
pub open spec fn trace(m: Aliases, w: Seq<char>) -> Seq<(Seq<char>, Seq<char>)> {
    chain(m, w, m.dom().len())
}

/// Wherever the chain from `w` ends, `resolve` is that end, and it stands for
/// nothing.
pub proof fn lemma_resolve_ends(m: Aliases, w: Seq<char>)
    requires
        m.dom().finite(),
    ensures
        forall|at: nat|
            !m.contains_key(#[trigger] follow(m, w, at)) ==> resolve(m, w) == follow(m, w, at)
                && !m.contains_key(resolve(m, w)),
{
    assert forall|at: nat| !m.contains_key(#[trigger] follow(m, w, at)) implies resolve(m, w)
        == follow(m, w, at) && !m.contains_key(resolve(m, w)) by {
        lemma_chain_is_short(m, w, at);
    }
}

/// A list of definitions as mathematical values.
pub open spec fn pairs_of(entries: Seq<(String, String)>) -> Seq<(Seq<char>, Seq<char>)> {
    Seq::new(entries.len(), |i: int| (entries[i].0@, entries[i].1@))
}

/// Whether a character is one of those that the standard aliases stand for.
pub open spec fn is_plain_char(c: char) -> bool {
    c == 't' || c == 'f' || c == '?' || c == '#' || c == '\'' || c == '-' || c == '*'
}

/// Whether a word is made of such characters alone.
pub open spec fn is_plain(w: Seq<char>) -> bool {
    forall|i: int| 0 <= i < w.len() ==> is_plain_char(#[trigger] w[i])
}

/// No standard alias stands for another alias: what a name stands for is
/// made of plain characters, and every name holds another character. So each
/// standard alias is resolved in one hop.
pub proof fn lemma_standard_one_hop(w: Seq<char>)
    requires
        standard_aliases().contains_key(w),
    ensures
        is_plain(standard_aliases()[w]),
        !is_plain(w),
        !standard_aliases().contains_key(standard_aliases()[w]),
        resolve(standard_aliases(), w) == standard_aliases()[w],
{
    reveal_strlit("help");
    reveal_strlit("?");
    reveal_strlit("true");
    reveal_strlit("t");
    reveal_strlit("false");
    reveal_strlit("f");
    reveal_strlit("lf");
    reveal_strlit("ff");
    reveal_strlit("not");
    reveal_strlit("ft");
    reveal_strlit("id");
    reveal_strlit("tf");
    reveal_strlit("lt");
    reveal_strlit("tt");
    reveal_strlit("cont");
    reveal_strlit("ffff");
    reveal_strlit("nor");
    reveal_strlit("ffft");
    reveal_strlit("cnonimpl");
    reveal_strlit("fftf");
    reveal_strlit("pneg");
    reveal_strlit("fftt");
    reveal_strlit("nonimpl");
    reveal_strlit("ftff");
    reveal_strlit("qneg");
    reveal_strlit("ftft");
    reveal_strlit("xor");
    reveal_strlit("fttf");
    reveal_strlit("nand");
    reveal_strlit("fttt");
    reveal_strlit("and");
    reveal_strlit("tfff");
    reveal_strlit("xnor");
    reveal_strlit("tfft");
    reveal_strlit("q");
    reveal_strlit("tftf");
    reveal_strlit("impl");
    reveal_strlit("tftt");
    reveal_strlit("p");
    reveal_strlit("ttff");
    reveal_strlit("cimpl");
    reveal_strlit("ttft");
    reveal_strlit("or");
    reveal_strlit("tttf");
    reveal_strlit("taut");
    reveal_strlit("tttt");
    reveal_strlit("drop");
    reveal_strlit("#");
    reveal_strlit("dup");
    reveal_strlit("'");
    reveal_strlit("over");
    reveal_strlit("'-");
    reveal_strlit("2dup");
    reveal_strlit("''");
    reveal_strlit("2over");
    reveal_strlit("''--");
    reveal_strlit("swap");
    reveal_strlit("-*");
    reveal_strlit("2swap");
    reveal_strlit("--**");
    reveal_strlit("rot");
    reveal_strlit("-**");
    assert(is_plain("?"@));
    assert(is_plain("t"@));
    assert(is_plain("f"@));
    assert(is_plain("ff"@));
    assert(is_plain("ft"@));
    assert(is_plain("tf"@));
    assert(is_plain("tt"@));
    assert(is_plain("ffff"@));
    assert(is_plain("ffft"@));
    assert(is_plain("fftf"@));
    assert(is_plain("fftt"@));
    assert(is_plain("ftff"@));
    assert(is_plain("ftft"@));
    assert(is_plain("fttf"@));
    assert(is_plain("fttt"@));
    assert(is_plain("tfff"@));
    assert(is_plain("tfft"@));
    assert(is_plain("tftf"@));
    assert(is_plain("tftt"@));
    assert(is_plain("ttff"@));
    assert(is_plain("ttft"@));
    assert(is_plain("tttf"@));
    assert(is_plain("tttt"@));
    assert(is_plain("#"@));
    assert(is_plain("'"@));
    assert(is_plain("'-"@));
    assert(is_plain("''"@));
    assert(is_plain("''--"@));
    assert(is_plain("-*"@));
    assert(is_plain("--**"@));
    assert(is_plain("-**"@));
    assert(!is_plain_char("help"@[0]));
    assert(!is_plain_char("true"@[1]));
    assert(!is_plain_char("false"@[1]));
    assert(!is_plain_char("lf"@[0]));
    assert(!is_plain_char("not"@[0]));
    assert(!is_plain_char("id"@[0]));
    assert(!is_plain_char("lt"@[0]));
    assert(!is_plain_char("cont"@[0]));
    assert(!is_plain_char("nor"@[0]));
    assert(!is_plain_char("cnonimpl"@[0]));
    assert(!is_plain_char("pneg"@[0]));
    assert(!is_plain_char("nonimpl"@[0]));
    assert(!is_plain_char("qneg"@[0]));
    assert(!is_plain_char("xor"@[0]));
    assert(!is_plain_char("nand"@[0]));
    assert(!is_plain_char("and"@[0]));
    assert(!is_plain_char("xnor"@[0]));
    assert(!is_plain_char("q"@[0]));
    assert(!is_plain_char("impl"@[0]));
    assert(!is_plain_char("p"@[0]));
    assert(!is_plain_char("cimpl"@[0]));
    assert(!is_plain_char("or"@[0]));
    assert(!is_plain_char("taut"@[1]));
    assert(!is_plain_char("drop"@[0]));
    assert(!is_plain_char("dup"@[0]));
    assert(!is_plain_char("over"@[0]));
    assert(!is_plain_char("2dup"@[0]));
    assert(!is_plain_char("2over"@[0]));
    assert(!is_plain_char("swap"@[0]));
    assert(!is_plain_char("2swap"@[0]));
    assert(!is_plain_char("rot"@[0]));
    let m = standard_aliases();
    assert(is_plain(m[w]));
    assert(!is_plain(w));
    assert(!m.contains_key(m[w]));
    lemma_follow_stays(m, m[w], 0);
    assert(follow(m, w, 1) == m[w]);
    lemma_resolve_ends(m, w);
}

/// The alias dictionary.
#[derive(Debug)]
pub struct Dictionary {
    entries: Vec<(String, String)>,
}

impl View for Dictionary {
    type V = Aliases;

    closed spec fn view(&self) -> Aliases {
        defined(self.pairs())
    }
}

impl Dictionary {
    /// The definitions that the dictionary holds, one for each name.
    closed spec fn pairs(&self) -> Seq<(Seq<char>, Seq<char>)> {
        pairs_of(self.entries@)
    }

    #[verifier::type_invariant]
    spec fn inv(self) -> bool {
        distinct_names(self.pairs())
    }

    /// A dictionary defines finitely many names.
    pub proof fn lemma_finite(&self)
        ensures
            self@.dom().finite(),
    {
        lemma_defined_finite(self.pairs());
    }

    /// A dictionary without definitions.
    pub fn new() -> (d: Dictionary)
        ensures
            d@ == Map::<Seq<char>, Seq<char>>::empty(),
    {
        Dictionary { entries: Vec::new() }
    }

    /// Defines `name` as `target`. An earlier definition of the name is
    /// replaced.
    pub fn insert(&mut self, name: String, target: String)
        ensures
            final(self)@ == old(self)@.insert(name@, target@),
    {
        let mut taken = Dictionary::new();
        core::mem::swap(self, &mut taken);
        proof {
            use_type_invariant(&taken);
        }
        let ghost before = taken.pairs();
        let mut entries = taken.entries;
        let mut k: usize = 0;
        while k < entries.len()
            invariant
                k <= entries@.len(),
                pairs_of(entries@) == before,
                defined(before) == old(self)@,
                distinct_names(before),
                forall|j: int| 0 <= j < k ==> (#[trigger] before[j]).0 != name@,
            decreases entries@.len() - k,
        {
            if entries[k].0 == name {
                proof {
                    lemma_defined_update(before, k as int, target@);
                }
                entries.set(k, (name, target));
                assert(pairs_of(entries@) =~= before.update(k as int, (name@, target@)));
                *self = Dictionary { entries };
                return ;
            }
            assert(before[k as int].0 != name@);
            k = k + 1;
        }
        entries.push((name, target));
        assert(pairs_of(entries@).drop_last() =~= before);
        assert(pairs_of(entries@) =~= before.push((name@, target@)));
        *self = Dictionary { entries };
    }

    /// What `word` stands for, if it stands for anything.
    pub fn get(&self, word: &String) -> (target: Option<&String>)
        ensures
            target is Some <==> self@.contains_key(word@),
            target matches Some(t) ==> t@ == self@[word@],
    {
        let mut k: usize = self.entries.len();
        while k > 0
            invariant
                k <= self.entries@.len(),
                forall|j: int| k <= j < self.entries@.len() ==> (#[trigger] self.pairs()[j]).0 != word@,
            decreases k,
        {
            if self.entries[k - 1].0 == *word {
                proof {
                    assert(self.pairs()[k - 1].0 == word@);
                    lemma_defined_last(self.pairs(), k as int, word@);
                }
                return Some(&self.entries[k - 1].1);
            }
            assert(self.pairs()[k - 1].0 != word@);
            k = k - 1;
        }
        proof {
            lemma_defined_last(self.pairs(), 0, word@);
        }
        None
    }

    /// Resolves a word: follows its definitions until a word stands for
    /// nothing, and returns that word.
    pub fn try_find(&self, q: String) -> (word: String)
        ensures
            word@ == resolve(self@, q@),
            forall|at: nat|
                !self@.contains_key(#[trigger] follow(self@, q@, at)) ==> word@ == follow(
                    self@,
                    q@,
                    at,
                ) && !self@.contains_key(word@),
    {
        let ghost start = q@;
        let mut qa = q;
        let mut left: usize = self.entries.len();
        proof {
            use_type_invariant(self);
            lemma_defined_len(self.pairs());
        }
        while left > 0
            invariant
                start == q@,
                follow(self@, qa@, left as nat) == resolve(self@, start),
            decreases left,
        {
            match self.get(&qa) {
                Some(v) => {
                    qa = v.clone();
                    left = left - 1;
                },
                None => {
                    proof {
                        self.lemma_finite();
                        lemma_resolve_ends(self@, start);
                    }
                    return qa;
                },
            }
        }
        proof {
            self.lemma_finite();
            lemma_resolve_ends(self@, start);
        }
        qa
    }

    /// The definitions that `try_find` uses on the way from `q`, in order:
    /// each a word and what it stands for.
    pub fn hops(&self, q: &String) -> (used: Vec<(String, String)>)
        ensures
            used@.len() == trace(self@, q@).len(),
            forall|i: int|
                0 <= i < used@.len() ==> (#[trigger] used@[i]).0@ == trace(self@, q@)[i].0
                    && used@[i].1@ == trace(self@, q@)[i].1,
    {
        let ghost whole = trace(self@, q@);
        let mut used: Vec<(String, String)> = Vec::new();
        let mut qa = q.clone();
        let mut left: usize = self.entries.len();
        proof {
            use_type_invariant(self);
            lemma_defined_len(self.pairs());
        }
        while left > 0
            invariant
                whole == trace(self@, q@),
                whole.len() == used@.len() + chain(self@, qa@, left as nat).len(),
                forall|i: int|
                    0 <= i < used@.len() ==> (#[trigger] used@[i]).0@ == whole[i].0 && used@[i].1@
                        == whole[i].1,
                forall|i: int|
                    0 <= i < chain(self@, qa@, left as nat).len() ==> whole[used@.len() + i]
                        == #[trigger] chain(self@, qa@, left as nat)[i],
            decreases left,
        {
            match self.get(&qa) {
                Some(v) => {
                    let ghost rest = chain(self@, v@, (left - 1) as nat);
                    let ghost here = chain(self@, qa@, left as nat);
                    proof {
                        assert(here == seq![(qa@, v@)] + rest);
                        assert(here[0] == (qa@, v@));
                        assert forall|i: int| 0 <= i < rest.len() implies whole[used@.len() + 1 + i]
                            == #[trigger] rest[i] by {
                            assert(here[i + 1] == rest[i]);
                        }
                    }
                    let next = v.clone();
                    used.push((qa, v.clone()));
                    qa = next;
                    left = left - 1;
                },
                None => {
                    return used;
                },
            }
        }
        used
    }

    /// Reads a text of definitions, one to a line.
    pub fn parse(text: &str) -> (d: Dictionary)
        ensures
            d@ == aliases_of(text@),
    {
        let chars = chars_of(text);
        let ls = split_lines(&chars);
        let mut d = Dictionary::new();
        let mut k: usize = 0;
        while k < ls.len()
            invariant
                k <= ls@.len() == lines(text@).len(),
                forall|l: int| 0 <= l < ls@.len() ==> (#[trigger] ls@[l])@ == lines(text@)[l],
                d@ == aliases_of_lines(lines(text@).take(k as int)),
            decreases ls@.len() - k,
        {
            assert(lines(text@).take(k + 1).drop_last() =~= lines(text@).take(k as int));
            let a = split_words(&ls[k]);
            if a.len() == 2 {
                d.insert(string_of(&a[0]), string_of(&a[1]));
            }
            k = k + 1;
        }
        assert(lines(text@).take(k as int) =~= lines(text@));
        d
    }

    /// The dictionary of the standard aliases.
    pub fn new_stdenv() -> (d: Dictionary)
        ensures
            d@ == aliases_of(STDENV@),
            d@ == standard_aliases(),
    {
        proof {
            lemma_standard_aliases();
        }
        Dictionary::parse(STDENV)
    }
}

} // verus!
