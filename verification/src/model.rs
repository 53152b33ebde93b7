//! Solver models: reading one, applying it to an input, and ruling it out.

use vstd::prelude::*;
use vstd::slice::slice_subrange;
use crate::text::{append_decimal, find_from, parse_number, split_lines, trim_start_of};
use crate::text;

verus! {

/// How many variable numbers stand for one input byte.
pub const OFFSET_STRIDE: usize = 10;

/// One line of a model: the variable `k!offset` has the byte `value`.
#[derive(Clone, Copy, Debug, PartialEq, Eq, Structural)]
pub struct Assignment {
    pub offset: usize,
    pub value: u8,
}

impl Assignment {
    /// The position of the input byte that the variable stands for.
    pub open spec fn position(self) -> int {
        self.offset as int / OFFSET_STRIDE as int
    }
}

/// The separator between a variable and its value.
pub open spec fn arrow() -> Seq<char> {
    seq![' ', '-', '>', ' ']
}

/// What stands before the number in a variable's name.
pub open spec fn variable_prefix() -> Seq<char> {
    seq!['k', '!']
}

/// What stands before the digits of a value.
pub open spec fn value_prefix() -> Seq<char> {
    seq!['#', 'x']
}

/// The separator stands at `i`, and splits the line there and nowhere else.
pub open spec fn splits_at(l: Seq<char>, i: int) -> bool {
    &&& text::occurs_at(l, arrow(), i)
    &&& forall|j: int| j < i ==> !text::occurs_at(l, arrow(), j)
    &&& forall|j: int| i + 4 <= j ==> !text::occurs_at(l, arrow(), j)
}

/// The assignment that a line of a model spells, if it spells one: a variable number in
/// decimal, the separator, and a byte in hexadecimal, both after their prefixes.
pub open spec fn assignment(l: Seq<char>) -> Option<Assignment> {
    if exists|i: int| splits_at(l, i) {
        let i = choose|i: int| splits_at(l, i);
        let offset = text::number(text::trim_start(l.take(i), variable_prefix()), 10, usize::MAX as nat);
        let value = text::number(text::trim_start(l.skip(i + 4), value_prefix()), 16, 255);
        match (offset, value) {
            (Some(o), Some(v)) => Some(Assignment { offset: o as usize, value: v as u8 }),
            _ => None,
        }
    } else {
        None
    }
}

/// The assignments that a model's text spells, if every line of it spells one.
pub open spec fn model(s: Seq<char>) -> Option<Seq<Assignment>> {
    if forall|i: int| 0 <= i < text::lines(s).len() ==> assignment(#[trigger] text::lines(s)[i]) is Some {
        Some(text::lines(s).map_values(|l: Seq<char>| assignment(l)->0))
    } else {
        None
    }
}

/// Reads one line of a model.
pub fn read_assignment(l: &[char]) -> (r: Option<Assignment>)
    ensures
        r == assignment(l@),
{
    let arrow_chars: [char; 4] = [' ', '-', '>', ' '];
    let variable_chars: [char; 2] = ['k', '!'];
    let value_chars: [char; 2] = ['#', 'x'];
    let arrow_slice: &[char] = &arrow_chars;
    let variable_slice: &[char] = &variable_chars;
    let value_slice: &[char] = &value_chars;
    proof {
        assert(arrow_slice@ == arrow());
        assert(variable_slice@ == variable_prefix());
        assert(value_slice@ == value_prefix());
    }
    match find_from(l, arrow_slice, 0) {
        None => {
            proof {
                assert forall|i: int| !splits_at(l@, i) by {
                    if text::occurs_at(l@, arrow(), i) {
                        assert(0 <= i);
                    }
                }
            }
            None
        },
        Some(i) => {
            proof {
                assert forall|k: int| splits_at(l@, k) implies k == i by {
                    assert(text::occurs_at(l@, arrow(), i as int));
                    assert(text::occurs_at(l@, arrow(), k));
                }
            }
            match find_from(l, arrow_slice, i + 4) {
                Some(k) => {
                    proof {
                        assert(text::occurs_at(l@, arrow(), k as int));
                    }
                    None
                },
                None => {
                    proof {
                        assert forall|j: int| j < i implies !text::occurs_at(l@, arrow(), j) by {
                            if 0 <= j {
                            }
                        }
                        assert(splits_at(l@, i as int));
                    }
                    let left = slice_subrange(l, 0, i);
                    let right = slice_subrange(l, i + 4, l.len());
                    proof {
                        assert(left@ == l@.take(i as int));
                        assert(right@ == l@.skip(i + 4));
                    }
                    let offset = parse_number(
                        trim_start_of(left, variable_slice),
                        10,
                        usize::MAX,
                    );
                    let value = parse_number(trim_start_of(right, value_slice), 16, 255);
                    match (offset, value) {
                        (Some(offset), Some(value)) => Some(
                            Assignment { offset, value: value as u8 },
                        ),
                        _ => None,
                    }
                },
            }
        },
    }
}

/// Reads the text of a model. The result is `None` exactly if some line is no assignment.
pub fn read_model(text: &str) -> (r: Option<Vec<Assignment>>)
    ensures
        match r {
            Some(v) => model(text@) == Some(v@),
            None => model(text@) is None,
        },
        r is Some <==> forall|i: int|
            0 <= i < text::lines(text@).len() ==> assignment(
                #[trigger] text::lines(text@)[i],
            ) is Some,
        r matches Some(v) ==> v@.len() == text::lines(text@).len() && forall|i: int|
            0 <= i < v@.len() ==> assignment(text::lines(text@)[i]) == Some(#[trigger] v@[i]),
{
    let rows = split_lines(text);
    let mut r: Vec<Assignment> = Vec::new();
    let mut i: usize = 0;
    while i < rows.len()
        invariant
            text::char_views(rows@) == text::lines(text@),
            i <= rows.len(),
            r.len() == i,
            forall|k: int|
                0 <= k < i ==> assignment(#[trigger] text::lines(text@)[k]) == Some(r@[k]),
        decreases rows.len() - i,
    {
        proof {
            assert(text::char_views(rows@)[i as int] == rows@[i as int]@);
        }
        match read_assignment(rows[i].as_slice()) {
            Some(a) => {
                r.push(a);
            },
            None => {
                return None;
            },
        }
        i += 1;
    }
    proof {
        assert(text::char_views(rows@).len() == rows@.len());
        assert(text::lines(text@).map_values(|l: Seq<char>| assignment(l)->0) =~= r@);
    }
    Some(r)
}

/// The value that the last assignment to the byte at position `p` gives it, if there is one.
pub open spec fn last_write(a: Seq<Assignment>, p: int) -> Option<u8>
    decreases a.len(),
{
    if a.len() == 0 {
        None
    } else if a.last().position() == p {
        Some(a.last().value)
    } else {
        last_write(a.drop_last(), p)
    }
}

/// `seed` with every assigned byte replaced; of several assignments to one byte the last counts.
pub open spec fn patched(seed: Seq<u8>, a: Seq<Assignment>) -> Seq<u8> {
    Seq::new(
        seed.len(),
        |p: int|
            match last_write(a, p) {
                Some(v) => v,
                None => seed[p],
            },
    )
}

/// Every assignment names a byte that an input of length `len` has.
pub open spec fn in_range(a: Seq<Assignment>, len: nat) -> bool {
    forall|i: int| 0 <= i < a.len() ==> (#[trigger] a[i]).position() < len
}

/// Applies a model to a copy of `seed`. The result is `None` exactly if an assignment names a
/// byte past the end of `seed`.
pub fn apply_model(seed: &Vec<u8>, a: &Vec<Assignment>) -> (r: Option<Vec<u8>>)
    ensures
        match r {
            Some(bytes) => in_range(a@, seed@.len()) && bytes@ == patched(seed@, a@),
            None => !in_range(a@, seed@.len()),
        },
        r is Some <==> forall|i: int|
            0 <= i < a@.len() ==> (#[trigger] a@[i]).offset < 10 * seed@.len(),
        r matches Some(bytes) ==> bytes@.len() == seed@.len(),
        r matches Some(bytes) ==> forall|q: int|
            0 <= q < seed@.len() && (forall|j: int|
                0 <= j < a@.len() ==> !(10 * q <= (#[trigger] a@[j]).offset < 10 * q + 10))
                ==> #[trigger] bytes@[q] == seed@[q],
        r matches Some(bytes) ==> forall|q: int, i: int|
            #![trigger bytes@[q], a@[i]]
            0 <= q < seed@.len() && 0 <= i < a@.len() && 10 * q <= a@[i].offset < 10 * q + 10 && (
            forall|j: int|
                i < j < a@.len() ==> !(10 * q <= (#[trigger] a@[j]).offset < 10 * q + 10))
                ==> bytes@[q] == a@[i].value,
{
    let mut bytes: Vec<u8> = seed.clone();
    let mut i: usize = 0;
    proof {
        assert(bytes@ =~= seed@);
        assert(patched(seed@, a@.take(0)) =~= seed@);
    }
    while i < a.len()
        invariant
            i <= a.len(),
            bytes@ == patched(seed@, a@.take(i as int)),
            in_range(a@.take(i as int), seed@.len()),
        decreases a.len() - i,
    {
        let p = a[i].offset / OFFSET_STRIDE;
        if p >= bytes.len() {
            proof {
                law_range_is_stated_on_offsets(a@, seed@.len());
                assert(a@[i as int].offset >= 10 * seed@.len());
            }
            return None;
        }
        let ghost before = bytes@;
        bytes[p] = a[i].value;
        proof {
            let done = a@.take(i + 1);
            assert(done.drop_last() == a@.take(i as int));
            assert(done.last() == a@[i as int]);
            assert(before.update(p as int, a@[i as int].value) =~= patched(seed@, done));
            assert forall|k: int| 0 <= k < done.len() implies (#[trigger] done[k]).position() <= seed@.len() - 1 by {
                if k < i {
                    assert(done[k] == a@.take(i as int)[k]);
                }
            }
        }
        i += 1;
    }
    proof {
        assert(a@.take(i as int) == a@);
        law_range_is_stated_on_offsets(a@, seed@.len());
        assert forall|q: int|
            0 <= q < seed@.len() && (forall|j: int|
                0 <= j < a@.len() ==> !(10 * q <= (#[trigger] a@[j]).offset < 10 * q
                    + 10)) implies #[trigger] bytes@[q] == seed@[q] by {
            law_unnamed_byte_stays(seed@, a@, q);
        }
        assert forall|q: int, k: int|
            #![trigger bytes@[q], a@[k]]
            0 <= q < seed@.len() && 0 <= k < a@.len() && 10 * q <= a@[k].offset < 10 * q + 10 && (
            forall|j: int|
                k < j < a@.len() ==> !(10 * q <= (#[trigger] a@[j]).offset < 10 * q
                    + 10)) implies bytes@[q] == a@[k].value by {
            law_value_lands_at_its_byte(seed@, a@, k, q);
        }
    }
    Some(bytes)
}

/// One alternative of a clause: the variable of that name differs from the value.
#[derive(Debug)]
pub struct Difference {
    pub variable: String,
    pub value: u8,
}

/// The name of the variable with number `offset`.
pub open spec fn variable_name(offset: nat) -> Seq<char> {
    variable_prefix() + text::decimal(offset)
}

/// The clause that rules a model out: some variable differs from the value it has in the model.
pub open spec fn exclusion(a: Seq<Assignment>) -> Seq<(Seq<char>, u8)> {
    a.map_values(|x: Assignment| (variable_name(x.offset as nat), x.value))
}

/// What a list of differences says.
pub open spec fn clause_view(v: Seq<Difference>) -> Seq<(Seq<char>, u8)> {
    v.map_values(|d: Difference| (d.variable@, d.value))
}

/// Writes down the clause that rules a model out, one difference for each assignment.
pub fn exclude_model(a: &Vec<Assignment>) -> (r: Vec<Difference>)
    ensures
        clause_view(r@) == exclusion(a@),
        r@.len() == a@.len(),
        forall|i: int|
            0 <= i < a@.len() ==> (#[trigger] r@[i]).variable@ == "k!"@ + text::decimal(
                a@[i].offset as nat,
            ) && r@[i].value == a@[i].value,
{
    let mut r: Vec<Difference> = Vec::new();
    let mut i: usize = 0;
    proof {
        reveal_strlit("k!");
    }
    while i < a.len()
        invariant
            i <= a.len(),
            "k!"@ == variable_prefix(),
            clause_view(r@) == exclusion(a@.take(i as int)),
        decreases a.len() - i,
    {
        let mut variable = "k!".to_owned();
        append_decimal(&mut variable, a[i].offset);
        let d = Difference { variable, value: a[i].value };
        let ghost before = r@;
        r.push(d);
        proof {
            assert(clause_view(r@) =~= clause_view(before).push((d.variable@, d.value)));
            assert(exclusion(a@.take(i + 1)) =~= exclusion(a@.take(i as int)).push(
                (variable_name(a@[i as int].offset as nat), a@[i as int].value),
            ));
        }
        i += 1;
    }
    proof {
        assert(a@.take(i as int) == a@);
        assert(clause_view(r@).len() == r@.len());
        assert(exclusion(a@).len() == a@.len());
        assert forall|k: int| 0 <= k < a@.len() implies (#[trigger] r@[k]).variable@ == "k!"@
            + text::decimal(a@[k].offset as nat) && r@[k].value == a@[k].value by {
            assert(clause_view(r@)[k] == (r@[k].variable@, r@[k].value));
            assert(exclusion(a@)[k] == (variable_name(a@[k].offset as nat), a@[k].value));
        }
    }
    r
}

/// A valuation of the variables satisfies a clause if one of its differences holds.
pub open spec fn satisfies(valuation: spec_fn(Seq<char>) -> u8, clause: Seq<(Seq<char>, u8)>) -> bool {
    exists|i: int| 0 <= i < clause.len() && valuation(clause[i].0) != (#[trigger] clause[i]).1
}

/// A valuation agrees with a model if every assigned variable has its value.
pub open spec fn agrees(valuation: spec_fn(Seq<char>) -> u8, a: Seq<Assignment>) -> bool {
    forall|i: int|
        0 <= i < a.len() ==> valuation(variable_name((#[trigger] a[i]).offset as nat)) == a[i].value
}

/// The clause of a model rules out that model and nothing else: the valuations that satisfy it
/// are those that do not agree with the model.
pub proof fn law_exclusion_is_exact(valuation: spec_fn(Seq<char>) -> u8, a: Seq<Assignment>)
    ensures
        satisfies(valuation, exclusion(a)) <==> !agrees(valuation, a),
{
    let clause = exclusion(a);
    assert forall|i: int| 0 <= i < a.len() implies clause[i] == (
        variable_name((#[trigger] a[i]).offset as nat),
        a[i].value,
    ) by {
    }
    if satisfies(valuation, clause) {
        let i = choose|i: int|
            0 <= i < clause.len() && valuation(clause[i].0) != (#[trigger] clause[i]).1;
        assert(a[i] == a[i]);
    }
    if !agrees(valuation, a) {
        let i = choose|i: int|
            0 <= i < a.len() && valuation(variable_name((#[trigger] a[i]).offset as nat))
                != a[i].value;
        assert(valuation(clause[i].0) != clause[i].1);
    }
}

/// Different variable numbers have different names.
pub proof fn law_variable_name_injective(m: nat, n: nat)
    requires
        variable_name(m) == variable_name(n),
    ensures
        m == n,
{
    assert(variable_name(m).skip(2) == text::decimal(m));
    assert(variable_name(n).skip(2) == text::decimal(n));
    text::law_decimal_injective(m, n);
}

/// Applying a model keeps the length of the input, and every byte that no assignment names.
pub proof fn law_patch_is_local(seed: Seq<u8>, a: Seq<Assignment>, p: int)
    requires
        0 <= p < seed.len(),
        forall|i: int|
            0 <= i < a.len() ==> (#[trigger] a[i]).position() != p,
    ensures
        patched(seed, a).len() == seed.len(),
        patched(seed, a)[p] == seed[p],
    decreases a.len(),
{
    if a.len() > 0 {
        assert(a.last() == a[a.len() - 1]);
        assert forall|i: int| 0 <= i < a.drop_last().len() implies (#[trigger] a.drop_last()[i]).position() != p by {
            assert(a.drop_last()[i] == a[i]);
        }
        law_patch_is_local(seed, a.drop_last(), p);
    }
}

/// An assigned byte has the value of the last assignment to it.
pub proof fn law_last_assignment_counts(seed: Seq<u8>, a: Seq<Assignment>, i: int)
    requires
        in_range(a, seed.len()),
        0 <= i < a.len(),
        forall|j: int|
            i < j < a.len() ==> (#[trigger] a[j]).position()
                != a[i].position(),
    ensures
        patched(seed, a)[a[i].position()] == a[i].value,
    decreases a.len(),
{
    let p = a[i].position();
    lemma_last_write(a, i);
    assert(0 <= p < seed.len());
}

proof fn lemma_last_write(a: Seq<Assignment>, i: int)
    requires
        0 <= i < a.len(),
        forall|j: int|
            i < j < a.len() ==> (#[trigger] a[j]).position()
                != a[i].position(),
    ensures
        last_write(a, a[i].position()) == Some(a[i].value),
    decreases a.len(),
{
    if i < a.len() - 1 {
        assert(a.last() == a[a.len() - 1]);
        let b = a.drop_last();
        assert forall|j: int| i < j < b.len() implies (#[trigger] b[j]).position() != b[i].position() by {
            assert(b[j] == a[j]);
        }
        lemma_last_write(b, i);
    }
}

/// A hexadecimal digit, in lower case.
pub open spec fn hex_char(d: nat) -> char {
    if d < 10 {
        (48 + d) as char
    } else {
        (87 + d) as char
    }
}

/// The form in which a solver prints one assignment of a byte.
pub open spec fn printed_line(x: Assignment) -> Seq<char> {
    variable_name(x.offset as nat) + arrow() + value_prefix() + seq![
        hex_char(x.value as nat / 16),
        hex_char(x.value as nat % 16),
    ]
}

/// The form in which a solver prints a model: one line for each assignment.
pub open spec fn printed(a: Seq<Assignment>) -> Seq<char>
    decreases a.len(),
{
    if a.len() == 0 {
        seq![]
    } else {
        printed_line(a[0]).push('\n') + printed(a.skip(1))
    }
}

proof fn lemma_hex_reads_back(v: u8)
    ensures
        ({
            let h = seq![hex_char(v as nat / 16), hex_char(v as nat % 16)];
            &&& text::number(h, 16, 255) == Some(v as nat)
            &&& h[0] != '#' && h[0] != ' ' && h[1] != ' '
            &&& h[0] != '\n' && h[1] != '\n' && h[1] != '\r'
        }),
{
    let h = seq![hex_char(v as nat / 16), hex_char(v as nat % 16)];
    assert(h.drop_last() == seq![h[0]]);
    assert(seq![h[0]].drop_last() == Seq::<char>::empty());
    assert(text::magnitude(Seq::<char>::empty(), 16) == 0);
    assert(text::magnitude(seq![h[0]], 16) == v as nat / 16);
    assert(text::magnitude(h, 16) == v as nat);
    assert(text::all_digits(h, 16));
}

/// Neither side of the separator holds a blank, so that the separator splits once.
proof fn lemma_split_between(left: Seq<char>, right: Seq<char>)
    requires
        !left.contains(' '),
        !right.contains(' '),
    ensures
        splits_at(left + arrow() + right, left.len() as int),
        forall|i: int| splits_at(left + arrow() + right, i) ==> i == left.len(),
{
    let l = left + arrow() + right;
    let at = left.len() as int;
    assert(l.subrange(at, at + 4) =~= arrow());
    assert(text::occurs_at(l, arrow(), at));
    assert forall|j: int| j < at || at + 4 <= j implies !text::occurs_at(l, arrow(), j) by {
        if text::occurs_at(l, arrow(), j) {
            assert(l.subrange(j, j + 4)[0] == l[j]);
            assert(arrow()[0] == ' ');
            if j < at {
                assert(left[j] == ' ');
            } else {
                assert(right[j - at - 4] == ' ');
            }
        }
    }
    assert forall|i: int| splits_at(l, i) implies i == at by {
        assert(text::occurs_at(l, arrow(), i));
    }
}

/// A prefix that stands once is taken off once.
proof fn lemma_trim_once(pat: Seq<char>, t: Seq<char>)
    requires
        pat.len() > 0,
        t.len() > 0,
        t[0] != pat[0],
    ensures
        text::trim_start(pat + t, pat) == t,
{
    let s = pat + t;
    let n = pat.len() as int;
    assert(s.subrange(0, n) =~= pat);
    assert(s.skip(n) =~= t);
    if text::occurs_at(t, pat, 0) {
        assert(t.subrange(0, n)[0] == t[0]);
    }
    assert(text::trim_start(t, pat) == t);
}

proof fn lemma_printed_line(x: Assignment)
    ensures
        assignment(printed_line(x)) == Some(x),
        !printed_line(x).contains('\n'),
        printed_line(x).len() > 0,
        printed_line(x).last() != '\r',
{
    let d = text::decimal(x.offset as nat);
    let h = seq![hex_char(x.value as nat / 16), hex_char(x.value as nat % 16)];
    let left = variable_prefix() + d;
    let right = value_prefix() + h;
    let l = printed_line(x);
    text::lemma_decimal_reads_back(x.offset as nat);
    text::law_number_of_decimal(x.offset as nat, usize::MAX as nat);
    lemma_hex_reads_back(x.value);
    assert(l =~= left + arrow() + right);
    assert forall|i: int| 0 <= i < left.len() implies left[i] != ' ' && left[i] != '\n' by {
        if i >= 2 {
            assert(left[i] == d[i - 2]);
        }
    }
    assert forall|i: int| 0 <= i < right.len() implies right[i] != ' ' && right[i] != '\n' by {
        if i >= 2 {
            assert(right[i] == h[i - 2]);
        }
    }
    lemma_split_between(left, right);
    let at = choose|i: int| splits_at(l, i);
    assert(at == left.len());
    assert(l.take(at) =~= left);
    assert(l.skip(at + 4) =~= right);
    lemma_trim_once(variable_prefix(), d);
    lemma_trim_once(value_prefix(), h);
    assert(l.last() == h[1]);
    assert forall|i: int| 0 <= i < l.len() implies l[i] != '\n' by {
        if i < at {
            assert(l[i] == left[i]);
        } else if i < at + 4 {
            assert(l[i] == arrow()[i - at]);
        } else {
            assert(l[i] == right[i - at - 4]);
        }
    }
}

/// The first line of a text that starts with a line and its line feed.
proof fn lemma_first_line(l: Seq<char>, rest: Seq<char>)
    requires
        !l.contains('\n'),
        l.len() > 0,
        l.last() != '\r',
    ensures
        text::lines(l.push('\n') + rest) == seq![l] + text::lines(rest),
{
    let s = l.push('\n') + rest;
    let n = l.len() as int;
    assert forall|i: int| 0 <= i < n implies #[trigger] s[i] != '\n' by {
        assert(s[i] == l[i]);
    }
    assert(s[n] == '\n');
    text::lemma_line_len_is(s, n);
    assert(s.take(n) =~= l);
    assert(s.skip(n + 1) =~= rest);
}

proof fn lemma_printed_lines(a: Seq<Assignment>)
    ensures
        text::lines(printed(a)) == a.map_values(|x: Assignment| printed_line(x)),
    decreases a.len(),
{
    if a.len() > 0 {
        lemma_printed_line(a[0]);
        lemma_printed_lines(a.skip(1));
        lemma_first_line(printed_line(a[0]), printed(a.skip(1)));
        assert(seq![printed_line(a[0])] + a.skip(1).map_values(|x: Assignment| printed_line(x))
            =~= a.map_values(|x: Assignment| printed_line(x)));
    } else {
        assert(text::lines(printed(a)) =~= a.map_values(|x: Assignment| printed_line(x)));
    }
}

/// Reading a model that was printed one assignment to a line gives the assignments back.
pub proof fn law_printed_model_reads_back(a: Seq<Assignment>)
    ensures
        model(printed(a)) == Some(a),
{
    lemma_printed_lines(a);
    let rows = text::lines(printed(a));
    assert forall|i: int| 0 <= i < rows.len() implies assignment(#[trigger] rows[i]) == Some(
        a[i],
    ) by {
        lemma_printed_line(a[i]);
    }
    assert(rows.map_values(|l: Seq<char>| assignment(l)->0) =~= a);
}

/// The value of an assignment lands at the byte whose block of ten holds the offset, unless a
/// later assignment lands there too.
pub proof fn law_value_lands_at_its_byte(seed: Seq<u8>, a: Seq<Assignment>, i: int, p: int)
    requires
        0 <= p < seed.len(),
        0 <= i < a.len(),
        10 * p <= a[i].offset < 10 * p + 10,
        forall|j: int| i < j < a.len() ==> !(10 * p <= (#[trigger] a[j]).offset < 10 * p + 10),
    ensures
        patched(seed, a)[p] == a[i].value,
{
    assert(a[i].position() == p);
    assert forall|j: int| i < j < a.len() implies (#[trigger] a[j]).position() != a[i].position() by {
    }
    lemma_last_write(a, i);
}

/// A byte keeps its value if no offset lies in its block of ten.
pub proof fn law_unnamed_byte_stays(seed: Seq<u8>, a: Seq<Assignment>, q: int)
    requires
        0 <= q < seed.len(),
        forall|j: int| 0 <= j < a.len() ==> !(10 * q <= (#[trigger] a[j]).offset < 10 * q + 10),
    ensures
        patched(seed, a).len() == seed.len(),
        patched(seed, a)[q] == seed[q],
{
    assert forall|j: int| 0 <= j < a.len() implies (#[trigger] a[j]).position() != q by {
    }
    law_patch_is_local(seed, a, q);
}

/// Assignments are in range exactly if every offset is below ten times the length.
pub proof fn law_range_is_stated_on_offsets(a: Seq<Assignment>, len: nat)
    ensures
        in_range(a, len) <==> forall|i: int|
            0 <= i < a.len() ==> (#[trigger] a[i]).offset < 10 * len,
{
    if in_range(a, len) {
        assert forall|i: int| 0 <= i < a.len() implies (#[trigger] a[i]).offset < 10 * len by {
            assert(a[i].position() < len);
        }
    }
}

/// A line with one separator spells an assignment exactly if what is left of it, behind the
/// leading `k!`s, spells a number in decimal that a machine word holds, and what is right of it,
/// behind the leading `#x`s, spells a byte in hexadecimal; and these are what it assigns.
pub proof fn law_line_spells_offset_and_value(left: Seq<char>, right: Seq<char>)
    requires
        !left.contains(' '),
        !right.contains(' '),
    ensures
        ({
            let l = left + seq![' ', '-', '>', ' '] + right;
            let offset = text::number(
                text::trim_start(left, seq!['k', '!']),
                10,
                usize::MAX as nat,
            );
            let value = text::number(text::trim_start(right, seq!['#', 'x']), 16, 255);
            &&& assignment(l) is Some <==> offset is Some && value is Some
            &&& assignment(l) matches Some(x) ==> offset == Some(x.offset as nat) && value == Some(
                x.value as nat,
            )
        }),
{
    let l = left + arrow() + right;
    lemma_split_between(left, right);
    let at = choose|i: int| splits_at(l, i);
    assert(splits_at(l, left.len() as int));
    assert(at == left.len());
    assert(l.take(at) =~= left);
    assert(l.skip(at + 4) =~= right);
}

/// The same for any line: what counts is all that stands before its first separator and all that
/// stands behind it, blanks and all, where no further separator follows.
pub proof fn law_line_is_read_around_its_separator(l: Seq<char>, at: int)
    requires
        text::occurs_at(l, seq![' ', '-', '>', ' '], at),
        forall|j: int|
            j < at || at + 4 <= j ==> !text::occurs_at(l, seq![' ', '-', '>', ' '], j),
    ensures
        ({
            let offset = text::number(
                text::trim_start(l.subrange(0, at), seq!['k', '!']),
                10,
                usize::MAX as nat,
            );
            let value = text::number(
                text::trim_start(l.subrange(at + 4, l.len() as int), seq!['#', 'x']),
                16,
                255,
            );
            &&& assignment(l) is Some <==> offset is Some && value is Some
            &&& assignment(l) matches Some(x) ==> offset == Some(x.offset as nat) && value == Some(
                x.value as nat,
            )
        }),
{
    assert(splits_at(l, at));
    let i = choose|i: int| splits_at(l, i);
    assert(i == at) by {
        assert(text::occurs_at(l, arrow(), i));
    }
    assert(l.take(at) =~= l.subrange(0, at));
    assert(l.skip(at + 4) =~= l.subrange(at + 4, l.len() as int));
}

/// A line without a separator, or with a second one behind the first, spells no assignment.
pub proof fn law_line_needs_one_separator(l: Seq<char>, i: int, j: int)
    ensures
        (forall|k: int| !text::occurs_at(l, seq![' ', '-', '>', ' '], k)) ==> assignment(l) is None,
        text::occurs_at(l, seq![' ', '-', '>', ' '], i) && text::occurs_at(
            l,
            seq![' ', '-', '>', ' '],
            j,
        ) && i + 4 <= j ==> assignment(l) is None,
{
    let sep = seq![' ', '-', '>', ' '];
    assert(sep == arrow());
    assert forall|k: int| splits_at(l, k) implies text::occurs_at(l, sep, k) by {
    }
    if text::occurs_at(l, sep, i) && text::occurs_at(l, sep, j) && i + 4 <= j {
        assert forall|k: int| !splits_at(l, k) by {
            if splits_at(l, k) {
                assert(k <= i);
                assert(text::occurs_at(l, arrow(), j));
            }
        }
    }
}

/// A model is read line by line: one line in front adds its assignment in front, and a line that
/// spells none spoils the whole.
pub proof fn law_model_is_read_by_lines(l: Seq<char>, rest: Seq<char>)
    requires
        !l.contains('\n'),
        l.len() == 0 || l.last() != '\r',
    ensures
        model(seq![]) == Some(Seq::<Assignment>::empty()),
        match (assignment(l), model(rest)) {
            (Some(x), Some(v)) => model(l + seq!['\n'] + rest) == Some(seq![x] + v),
            _ => model(l + seq!['\n'] + rest) is None,
        },
{
    text::law_lines_split_at_line_feeds(l, rest);
    let s = l + seq!['\n'] + rest;
    let rows = text::lines(s);
    let tail = text::lines(rest);
    assert(rows == seq![l] + tail);
    assert(text::lines(seq![]).map_values(|l: Seq<char>| assignment(l)->0) =~= Seq::<
        Assignment,
    >::empty());
    assert forall|i: int| 0 <= i < tail.len() implies rows[i + 1] == #[trigger] tail[i] by {
    }
    assert(rows[0] == l);
    if assignment(l) is Some && model(rest) is Some {
        assert forall|i: int| 0 <= i < rows.len() implies assignment(#[trigger] rows[i]) is Some by {
            if i > 0 {
                assert(rows[i] == tail[i - 1]);
            }
        }
        assert(rows.map_values(|l: Seq<char>| assignment(l)->0) =~= seq![assignment(l)->0]
            + tail.map_values(|l: Seq<char>| assignment(l)->0));
    } else if assignment(l) is Some {
        let i = choose|i: int| 0 <= i < tail.len() && assignment(#[trigger] tail[i]) is None;
        assert(rows[i + 1] == tail[i]);
    }
}

/// The clause of a model has one difference for each assignment, which names the variable by
/// `k!` and the offset's numeral, and the assigned value.
pub proof fn law_exclusion_names_each_assignment(a: Seq<Assignment>, i: int)
    requires
        0 <= i < a.len(),
    ensures
        exclusion(a).len() == a.len(),
        exclusion(a)[i].0 == seq!['k', '!'] + text::decimal(a[i].offset as nat),
        exclusion(a)[i].1 == a[i].value,
{
}

} // verus!
